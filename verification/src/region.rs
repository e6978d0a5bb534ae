use vstd::prelude::*;

verus! {

/// Position `p` = (row, column) names a cell of `g`.
pub open spec fn in_grid<T>(g: Seq<Seq<T>>, p: (int, int)) -> bool {
    0 <= p.0 < g.len() && 0 <= p.1 < g[p.0].len()
}

/// Every row of `g` has `cols` cells, and there are `rows` of them.
pub open spec fn rectangular<T>(g: Seq<Seq<T>>, rows: int, cols: int) -> bool {
    &&& g.len() == rows
    &&& forall|r: int| 0 <= r < rows ==> (#[trigger] g[r]).len() == cols
}

/// The grid `g` with cell `(i, j)` replaced by `v`.
pub open spec fn set_cell<T>(g: Seq<Seq<T>>, i: int, j: int, v: T) -> Seq<Seq<T>> {
    g.update(i, g[i].update(j, v))
}

/// What `set_cell` leaves in each cell: the new value in the cell that was
/// written, and the old value everywhere else.
pub proof fn lemma_set_cell<T>(g: Seq<Seq<T>>, i: int, j: int, v: T, r: int, c: int)
    requires
        in_grid(g, (i, j)),
        in_grid(g, (r, c)),
    ensures
        set_cell(g, i, j, v).len() == g.len(),
        set_cell(g, i, j, v)[r].len() == g[r].len(),
        set_cell(g, i, j, v)[r][c] == if r == i && c == j {
            v
        } else {
            g[r][c]
        },
{
}

/// The two positions share an edge.
pub open spec fn adjacent(p: (int, int), q: (int, int)) -> bool {
    ||| p.0 == q.0 && (p.1 == q.1 + 1 || p.1 + 1 == q.1)
    ||| p.1 == q.1 && (p.0 == q.0 + 1 || p.0 + 1 == q.0)
}

/// `p` is a cell of `g` and holds `v`.
pub open spec fn holds<T>(g: Seq<Seq<T>>, p: (int, int), v: T) -> bool {
    in_grid(g, p) && g[p.0][p.1] == v
}

/// Step `k` of `path` goes to a cell that shares an edge with the one it leaves.
pub open spec fn linked(path: Seq<(int, int)>, k: int) -> bool {
    adjacent(path[k], path[k + 1])
}

/// `path` walks from cell to neighbouring cell over cells of `g` that all hold `v`.
pub open spec fn is_path<T>(g: Seq<Seq<T>>, v: T, path: Seq<(int, int)>) -> bool {
    &&& path.len() > 0
    &&& forall|k: int| 0 <= k < path.len() ==> holds(g, #[trigger] path[k], v)
    &&& forall|k: int| 0 <= k < path.len() - 1 ==> #[trigger] linked(path, k)
}

/// Some walk over cells holding `v` leads from `a` to `b`.
pub open spec fn connected<T>(g: Seq<Seq<T>>, v: T, a: (int, int), b: (int, int)) -> bool {
    exists|path: Seq<(int, int)>| #[trigger] is_path(g, v, path) && path[0] == a && path.last() == b
}

/// `p` belongs to the region of `seed`: the cells that a walk from `seed`
/// reaches over cells holding the seed's value.
pub open spec fn in_region<T>(g: Seq<Seq<T>>, seed: (int, int), p: (int, int)) -> bool {
    in_grid(g, seed) && connected(g, g[seed.0][seed.1], seed, p)
}

/// The grid `g` with the region of `seed` recoloured to `new_e` and every
/// other cell as it was.
pub open spec fn flood_filled<T>(g: Seq<Seq<T>>, seed: (int, int), new_e: T) -> Seq<Seq<T>> {
    Seq::new(
        g.len(),
        |r: int|
            Seq::new(
                g[r].len(),
                |c: int|
                    if in_region(g, seed, (r, c)) {
                        new_e
                    } else {
                        g[r][c]
                    },
            ),
    )
}

/// The grid `g` with every cell that a walk from `p` over cells holding `v`
/// reaches set to `w`, and every other cell as it was. Where `p` is no cell
/// of `g`, or does not hold `v`, that is `g` itself.
pub open spec fn recolored<T>(g: Seq<Seq<T>>, v: T, p: (int, int), w: T) -> Seq<Seq<T>> {
    Seq::new(
        g.len(),
        |r: int|
            Seq::new(
                g[r].len(),
                |c: int|
                    if connected(g, v, p, (r, c)) {
                        w
                    } else {
                        g[r][c]
                    },
            ),
    )
}

/// A cell that holds `v` is connected to itself.
pub proof fn lemma_connected_self<T>(g: Seq<Seq<T>>, v: T, a: (int, int))
    requires
        holds(g, a, v),
    ensures
        connected(g, v, a, a),
{
    let path = seq![a];
    assert(path[0] == a);
    assert(is_path(g, v, path));
}

/// Both ends of a walk are cells that hold `v`.
pub proof fn lemma_connected_value<T>(g: Seq<Seq<T>>, v: T, a: (int, int), b: (int, int))
    requires
        connected(g, v, a, b),
    ensures
        holds(g, a, v),
        holds(g, b, v),
{
    let path = choose|path: Seq<(int, int)>| #[trigger]
        is_path(g, v, path) && path[0] == a && path.last() == b;
    assert(holds(g, path[0], v));
    assert(holds(g, path[path.len() - 1], v));
}

/// A walk can be taken one cell further.
pub proof fn lemma_connected_grows<T>(
    g: Seq<Seq<T>>,
    v: T,
    a: (int, int),
    b: (int, int),
    c: (int, int),
)
    requires
        connected(g, v, a, b),
        adjacent(b, c),
        holds(g, c, v),
    ensures
        connected(g, v, a, c),
{
    let path = choose|path: Seq<(int, int)>| #[trigger]
        is_path(g, v, path) && path[0] == a && path.last() == b;
    let longer = path.push(c);
    assert forall|k: int| 0 <= k < longer.len() implies holds(g, #[trigger] longer[k], v) by {
        if k < path.len() {
            assert(longer[k] == path[k]);
        }
    }
    assert forall|k: int| 0 <= k < longer.len() - 1 implies #[trigger] linked(longer, k) by {
        if k < path.len() - 1 {
            assert(linked(path, k));
        }
    }
    assert(is_path(g, v, longer));
    assert(longer[0] == a && longer.last() == c);
}

/// A walk can start one cell earlier.
pub proof fn lemma_connected_from_neighbour<T>(
    g: Seq<Seq<T>>,
    v: T,
    p: (int, int),
    a: (int, int),
    b: (int, int),
)
    requires
        holds(g, p, v),
        adjacent(p, a),
        connected(g, v, a, b),
    ensures
        connected(g, v, p, b),
{
    let path = choose|path: Seq<(int, int)>| #[trigger]
        is_path(g, v, path) && path[0] == a && path.last() == b;
    let longer = seq![p] + path;
    assert forall|k: int| 0 <= k < longer.len() implies holds(g, #[trigger] longer[k], v) by {
        if k > 0 {
            assert(longer[k] == path[k - 1]);
        }
    }
    assert forall|k: int| 0 <= k < longer.len() - 1 implies #[trigger] linked(longer, k) by {
        assert(longer[k + 1] == path[k]);
        if k > 0 {
            assert(longer[k] == path[k - 1]);
            assert(linked(path, k - 1));
        }
    }
    assert(is_path(g, v, longer));
    assert(longer[0] == p && longer.last() == b);
}

/// From every cell along a walk, the walk's start can be reached.
proof fn lemma_walk_backward<T>(g: Seq<Seq<T>>, v: T, path: Seq<(int, int)>, k: int)
    requires
        is_path(g, v, path),
        0 <= k < path.len(),
    ensures
        connected(g, v, path[k], path[0]),
    decreases k,
{
    if k == 0 {
        lemma_connected_self(g, v, path[0]);
    } else {
        lemma_walk_backward(g, v, path, k - 1);
        assert(linked(path, k - 1));
        lemma_connected_from_neighbour(g, v, path[k], path[k - 1], path[0]);
    }
}

/// Where a walk leads from `a` to `b`, one leads from `b` to `a`.
pub proof fn lemma_connected_symmetric<T>(g: Seq<Seq<T>>, v: T, a: (int, int), b: (int, int))
    requires
        connected(g, v, a, b),
    ensures
        connected(g, v, b, a),
{
    let path = choose|path: Seq<(int, int)>| #[trigger]
        is_path(g, v, path) && path[0] == a && path.last() == b;
    lemma_walk_backward(g, v, path, path.len() - 1);
}

/// A walk from `a` to `b` and one from `b` to `c` make one from `a` to `c`.
pub proof fn lemma_connected_transitive<T>(
    g: Seq<Seq<T>>,
    v: T,
    a: (int, int),
    b: (int, int),
    c: (int, int),
)
    requires
        connected(g, v, a, b),
        connected(g, v, b, c),
    ensures
        connected(g, v, a, c),
{
    let path = choose|path: Seq<(int, int)>| #[trigger]
        is_path(g, v, path) && path[0] == b && path.last() == c;
    lemma_connected_onward(g, v, a, path, path.len() - 1);
}

/// A walk that reaches the start of `path` reaches every cell along it.
proof fn lemma_connected_onward<T>(
    g: Seq<Seq<T>>,
    v: T,
    a: (int, int),
    path: Seq<(int, int)>,
    k: int,
)
    requires
        is_path(g, v, path),
        connected(g, v, a, path[0]),
        0 <= k < path.len(),
    ensures
        connected(g, v, a, path[k]),
    decreases k,
{
    if k > 0 {
        lemma_connected_onward(g, v, a, path, k - 1);
        assert(linked(path, k - 1));
        lemma_connected_grows(g, v, a, path[k - 1], path[k]);
    }
}

/// Two cells of one region have the same region: a fill from either seed
/// recolours the same cells.
pub proof fn lemma_region_of_member<T>(g: Seq<Seq<T>>, seed: (int, int), other: (int, int), w: T)
    requires
        in_region(g, seed, other),
    ensures
        flood_filled(g, other, w) == flood_filled(g, seed, w),
{
    let v = g[seed.0][seed.1];
    lemma_connected_value(g, v, seed, other);
    lemma_connected_symmetric(g, v, seed, other);
    let a = flood_filled(g, other, w);
    let b = flood_filled(g, seed, w);
    assert forall|r: int| 0 <= r < g.len() implies #[trigger] a[r] =~= b[r] by {
        assert forall|c: int| 0 <= c < g[r].len() implies a[r][c] == b[r][c] by {
            if connected(g, v, other, (r, c)) {
                lemma_connected_transitive(g, v, seed, other, (r, c));
            }
            if connected(g, v, seed, (r, c)) {
                lemma_connected_transitive(g, v, other, seed, (r, c));
            }
        }
    }
    assert(a =~= b);
}

/// A walk over cells of `h` is a walk in every grid that holds `v` wherever
/// `h` does.
pub proof fn lemma_connected_in_larger<T>(
    h: Seq<Seq<T>>,
    g: Seq<Seq<T>>,
    v: T,
    a: (int, int),
    b: (int, int),
)
    requires
        connected(h, v, a, b),
        forall|x: (int, int)| holds(h, x, v) ==> #[trigger] holds(g, x, v),
    ensures
        connected(g, v, a, b),
{
    let path = choose|path: Seq<(int, int)>| #[trigger]
        is_path(h, v, path) && path[0] == a && path.last() == b;
    assert forall|k: int| 0 <= k < path.len() implies holds(g, #[trigger] path[k], v) by {
        assert(holds(h, path[k], v));
    }
    assert(is_path(g, v, path));
}

/// Recolouring from a position that is no cell holding `v` changes nothing.
pub proof fn lemma_recolored_from_elsewhere<T>(g: Seq<Seq<T>>, v: T, p: (int, int), w: T)
    requires
        !holds(g, p, v),
    ensures
        recolored(g, v, p, w) == g,
{
    let f = recolored(g, v, p, w);
    assert forall|r: int| 0 <= r < g.len() implies #[trigger] f[r] =~= g[r] by {
        assert forall|c: int| 0 <= c < g[r].len() implies f[r][c] == g[r][c] by {
            if connected(g, v, p, (r, c)) {
                lemma_connected_value(g, v, p, (r, c));
            }
        }
    }
    assert(f =~= g);
}

/// A fill recolours from the seed over the value that the seed holds.
pub proof fn lemma_flood_filled_is_recolored<T>(g: Seq<Seq<T>>, seed: (int, int), w: T)
    requires
        in_grid(g, seed),
    ensures
        flood_filled(g, seed, w) == recolored(g, g[seed.0][seed.1], seed, w),
{
    let a = flood_filled(g, seed, w);
    let b = recolored(g, g[seed.0][seed.1], seed, w);
    assert forall|r: int| 0 <= r < g.len() implies #[trigger] a[r] =~= b[r] by {}
    assert(a =~= b);
}

/// The seed belongs to its own region.
pub proof fn lemma_seed_in_region<T>(g: Seq<Seq<T>>, seed: (int, int))
    requires
        in_grid(g, seed),
    ensures
        in_region(g, seed, seed),
{
    lemma_connected_self(g, g[seed.0][seed.1], seed);
}

/// Every cell of a region is a cell of the grid and holds the seed's value.
pub proof fn lemma_region_value<T>(g: Seq<Seq<T>>, seed: (int, int), p: (int, int))
    requires
        in_region(g, seed, p),
    ensures
        holds(g, p, g[seed.0][seed.1]),
{
    lemma_connected_value(g, g[seed.0][seed.1], seed, p);
}

/// A region takes in every neighbour of its cells that holds the seed's value.
pub proof fn lemma_region_grows<T>(g: Seq<Seq<T>>, seed: (int, int), p: (int, int), q: (int, int))
    requires
        in_region(g, seed, p),
        adjacent(p, q),
        holds(g, q, g[seed.0][seed.1]),
    ensures
        in_region(g, seed, q),
{
    lemma_connected_grows(g, g[seed.0][seed.1], seed, p, q);
}

/// Filling a region with the value it already holds changes nothing.
pub proof fn lemma_fill_with_same_value<T>(g: Seq<Seq<T>>, seed: (int, int), v: T)
    requires
        in_grid(g, seed),
        g[seed.0][seed.1] == v,
    ensures
        flood_filled(g, seed, v) == g,
{
    let f = flood_filled(g, seed, v);
    assert forall|r: int| 0 <= r < g.len() implies #[trigger] f[r] =~= g[r] by {
        assert forall|c: int| 0 <= c < g[r].len() implies f[r][c] == g[r][c] by {
            if in_region(g, seed, (r, c)) {
                lemma_region_value(g, seed, (r, c));
            }
        }
    }
    assert(f =~= g);
}

/// A fill keeps the shape of the grid: the same rows, each of the same length.
pub proof fn lemma_fill_keeps_shape<T>(g: Seq<Seq<T>>, seed: (int, int), v: T)
    ensures
        flood_filled(g, seed, v).len() == g.len(),
        forall|r: int|
            0 <= r < g.len() ==> (#[trigger] flood_filled(g, seed, v)[r]).len() == g[r].len(),
        forall|p: (int, int)| in_grid(flood_filled(g, seed, v), p) <==> in_grid(g, p),
{
}

/// A fill changes no cell outside the grid and none outside the seed's
/// region: whatever differs afterwards is a cell of the grid that a walk from
/// the seed reaches.
pub proof fn lemma_fill_changes_only_region<T>(
    g: Seq<Seq<T>>,
    seed: (int, int),
    v: T,
    p: (int, int),
)
    requires
        in_grid(g, p),
        flood_filled(g, seed, v)[p.0][p.1] != g[p.0][p.1],
    ensures
        in_region(g, seed, p),
        flood_filled(g, seed, v)[p.0][p.1] == v,
{
}

/// Filling twice from the same seed with the same value is the same as
/// filling once.
pub proof fn lemma_fill_idempotent<T>(g: Seq<Seq<T>>, seed: (int, int), v: T)
    requires
        in_grid(g, seed),
    ensures
        flood_filled(flood_filled(g, seed, v), seed, v) == flood_filled(g, seed, v),
{
    let f = flood_filled(g, seed, v);
    lemma_seed_in_region(g, seed);
    assert(f[seed.0][seed.1] == v);
    lemma_fill_with_same_value(f, seed, v);
}

/// Number of elements of `s` equal to `v`.
pub open spec fn row_count<T>(s: Seq<T>, v: T) -> nat
    decreases s.len(),
{
    if s.len() == 0 {
        0
    } else {
        row_count(s.drop_last(), v) + if s.last() == v {
            1nat
        } else {
            0nat
        }
    }
}

/// Number of cells of `g` equal to `v`.
pub open spec fn grid_count<T>(g: Seq<Seq<T>>, v: T) -> nat
    decreases g.len(),
{
    if g.len() == 0 {
        0
    } else {
        grid_count(g.drop_last(), v) + row_count(g.last(), v)
    }
}

/// Replacing an element that was `v` by another value leaves one element
/// fewer equal to `v`.
pub proof fn lemma_row_count_update<T>(s: Seq<T>, i: int, w: T, v: T)
    requires
        0 <= i < s.len(),
        s[i] == v,
        w != v,
    ensures
        row_count(s.update(i, w), v) + 1 == row_count(s, v),
    decreases s.len(),
{
    let s2 = s.update(i, w);
    if i == s.len() - 1 {
        assert(s2.drop_last() =~= s.drop_last());
    } else {
        assert(s2.drop_last() =~= s.drop_last().update(i, w));
        lemma_row_count_update(s.drop_last(), i, w, v);
    }
}

/// Replacing a row changes the count by what the two rows differ in.
pub proof fn lemma_grid_count_update<T>(g: Seq<Seq<T>>, r: int, row: Seq<T>, v: T)
    requires
        0 <= r < g.len(),
    ensures
        grid_count(g.update(r, row), v) + row_count(g[r], v) == grid_count(g, v) + row_count(
            row,
            v,
        ),
    decreases g.len(),
{
    let g2 = g.update(r, row);
    if r == g.len() - 1 {
        assert(g2.drop_last() =~= g.drop_last());
    } else {
        assert(g2.drop_last() =~= g.drop_last().update(r, row));
        lemma_grid_count_update(g.drop_last(), r, row, v);
    }
}

/// Recolouring one cell that held `v` leaves one cell fewer that holds `v`.
pub proof fn lemma_count_after_write<T>(g: Seq<Seq<T>>, r: int, c: int, w: T, v: T)
    requires
        in_grid(g, (r, c)),
        g[r][c] == v,
        w != v,
    ensures
        grid_count(set_cell(g, r, c, w), v) + 1 == grid_count(g, v),
{
    lemma_row_count_update(g[r], c, w, v);
    lemma_grid_count_update(g, r, g[r].update(c, w), v);
}

/// A row that holds `v` only where another row does holds it no more often.
pub proof fn lemma_row_count_monotone<T>(s: Seq<T>, t: Seq<T>, v: T)
    requires
        s.len() == t.len(),
        forall|i: int| 0 <= i < s.len() && #[trigger] t[i] == v ==> s[i] == v,
    ensures
        row_count(t, v) <= row_count(s, v),
    decreases s.len(),
{
    if s.len() > 0 {
        assert(t[t.len() - 1] == v ==> s[s.len() - 1] == v);
        assert forall|i: int|
            0 <= i < s.drop_last().len() && #[trigger] t.drop_last()[i] == v implies s.drop_last()[i]
            == v by {
            assert(t[i] == v);
        }
        lemma_row_count_monotone(s.drop_last(), t.drop_last(), v);
    }
}

/// A grid that holds `v` only where another grid does holds it no more
/// often.
pub proof fn lemma_grid_count_monotone<T>(g: Seq<Seq<T>>, h: Seq<Seq<T>>, v: T)
    requires
        g.len() == h.len(),
        forall|r: int| 0 <= r < g.len() ==> (#[trigger] h[r]).len() == g[r].len(),
        forall|r: int, c: int|
            0 <= r < g.len() && 0 <= c < g[r].len() && #[trigger] h[r][c] == v ==> g[r][c] == v,
    ensures
        grid_count(h, v) <= grid_count(g, v),
    decreases g.len(),
{
    if g.len() > 0 {
        let last = g.len() - 1;
        assert(h[last].len() == g[last].len());
        assert forall|i: int| 0 <= i < g[last].len() && #[trigger] h[last][i] == v implies g[last][i]
            == v by {}
        lemma_row_count_monotone(g.last(), h.last(), v);
        assert forall|r: int| 0 <= r < g.drop_last().len() implies (#[trigger] h.drop_last()[r]).len()
            == g.drop_last()[r].len() by {
            assert(h[r].len() == g[r].len());
        }
        assert forall|r: int, c: int|
            0 <= r < g.drop_last().len() && 0 <= c < g.drop_last()[r].len()
                && #[trigger] h.drop_last()[r][c] == v implies g.drop_last()[r][c] == v by {
            assert(h[r][c] == v);
        }
        lemma_grid_count_monotone(g.drop_last(), h.drop_last(), v);
    }
}

} // verus!
