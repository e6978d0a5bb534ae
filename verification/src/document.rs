use crate::color::Color;
use crate::fill::CellGrid;
use crate::matrix::{lemma_cell_index_in_range, lemma_cell_index_injective, Matrix};
use crate::region::{lemma_set_cell, set_cell};
use std::sync::Arc;
use vstd::prelude::*;
use vstd::std_specs::cmp::{PartialEqSpec, PartialEqSpecImpl};

verus! {

/// A square block of pixels: the unit that documents share.
pub type Tile = Matrix<Color>;

/// What a document shows: its size and its pixels, row by row.
/// `pixels[y][x]` is the pixel in column `x` of row `y`.
pub struct Picture {
    pub width: nat,
    pub height: nat,
    pub pixels: Seq<Seq<Color>>,
}

/// The picture of the given size in which every pixel is `color`.
pub open spec fn blank(width: nat, height: nat, color: Color) -> Picture {
    Picture { width, height, pixels: Seq::new(height, |y: int| Seq::new(width, |x: int| color)) }
}

/// `n / d`, rounded up.
pub open spec fn ceil_div(n: int, d: int) -> int {
    if n % d == 0 {
        n / d
    } else {
        n / d + 1
    }
}

/// The slot of the tile that holds pixel `(x, y)` in a document of the given
/// width: tiles are numbered row by row.
pub open spec fn tile_index(x: int, y: int, width: int, tile_size: int) -> int {
    (y / tile_size) * ceil_div(width, tile_size) + x / tile_size
}

/// The pixels that the tiles hold, taken tile by tile: pixel `(x, y)` lives
/// in tile `tile_index(x, y, ..)` at row `y % tile_size`, column
/// `x % tile_size`.
pub open spec fn pixels_of(tiles: Seq<Seq<Seq<Color>>>, width: nat, height: nat, tile_size: int) -> Seq<
    Seq<Color>,
> {
    Seq::new(
        height,
        |y: int|
            Seq::new(
                width,
                |x: int|
                    tiles[tile_index(x, y, width as int, tile_size)][y % tile_size][x % tile_size],
            ),
    )
}

/// A coordinate below `n` falls into one of the `ceil_div(n, d)` blocks of
/// size `d`.
proof fn lemma_block_in_range(x: int, n: int, d: int)
    by (nonlinear_arith)
    requires
        0 <= x < n,
        0 < d,
    ensures
        0 <= x / d < ceil_div(n, d),
        0 <= x % d < d,
        x == (x / d) * d + x % d,
{
}

/// The tile and the place in it that hold pixel `(x, y)`.
proof fn lemma_tile_index_in_range(x: int, y: int, width: int, height: int, tile_size: int)
    requires
        0 <= x < width,
        0 <= y < height,
        0 < tile_size,
    ensures
        0 <= tile_index(x, y, width, tile_size) < ceil_div(width, tile_size) * ceil_div(
            height,
            tile_size,
        ),
        0 <= x % tile_size < tile_size,
        0 <= y % tile_size < tile_size,
{
    lemma_block_in_range(x, width, tile_size);
    lemma_block_in_range(y, height, tile_size);
    lemma_cell_index_in_range(
        y / tile_size,
        x / tile_size,
        ceil_div(height, tile_size),
        ceil_div(width, tile_size),
    );
    assert(ceil_div(height, tile_size) * ceil_div(width, tile_size) == ceil_div(width, tile_size)
        * ceil_div(height, tile_size)) by (nonlinear_arith);
}

/// Two pixels that live in the same place of the same tile are the same
/// pixel.
proof fn lemma_tile_place_injective(
    x1: int,
    y1: int,
    x2: int,
    y2: int,
    width: int,
    tile_size: int,
)
    requires
        0 <= x1 < width,
        0 <= x2 < width,
        0 <= y1,
        0 <= y2,
        0 < tile_size,
        tile_index(x1, y1, width, tile_size) == tile_index(x2, y2, width, tile_size),
        x1 % tile_size == x2 % tile_size,
        y1 % tile_size == y2 % tile_size,
    ensures
        x1 == x2,
        y1 == y2,
{
    lemma_block_in_range(x1, width, tile_size);
    lemma_block_in_range(x2, width, tile_size);
    lemma_block_in_range(y1, y1 + 1, tile_size);
    lemma_block_in_range(y2, y2 + 1, tile_size);
    lemma_cell_index_injective(
        y1 / tile_size,
        x1 / tile_size,
        y2 / tile_size,
        x2 / tile_size,
        ceil_div(width, tile_size),
    );
}

/// `n / d`, rounded up.
fn div_ceil(n: usize, d: usize) -> (q: usize)
    requires
        d > 0,
    ensures
        q == ceil_div(n as int, d as int),
{
    let q = n / d;
    if n % d != 0 {
        assert(q < n) by (nonlinear_arith)
            requires
                q == n as int / d as int,
                (n as int) % (d as int) != 0,
                d > 0,
                n >= 0,
        ;
        q + 1
    } else {
        q
    }
}

/// Writing pixel `(x, y)` inside its tile writes that pixel of the canvas and
/// no other.
proof fn lemma_pixels_after_write(
    tiles: Seq<Arc<Tile>>,
    slot: Arc<Tile>,
    width: nat,
    height: nat,
    tile_size: int,
    x: int,
    y: int,
    v: Color,
)
    requires
        0 <= x < width,
        0 <= y < height,
        0 < tile_size,
        tiles.len() == ceil_div(width as int, tile_size) * ceil_div(height as int, tile_size),
        forall|k: int| 0 <= k < tiles.len() ==> tile_fits(*#[trigger] tiles[k], tile_size),
        slot@ == set_cell(
            tiles[tile_index(x, y, width as int, tile_size)]@,
            y % tile_size,
            x % tile_size,
            v,
        ),
    ensures
        pixels_of(
            tile_views(tiles.update(tile_index(x, y, width as int, tile_size), slot)),
            width,
            height,
            tile_size,
        ) == set_cell(pixels_of(tile_views(tiles), width, height, tile_size), y, x, v),
{
    let idx = tile_index(x, y, width as int, tile_size);
    let after = tiles.update(idx, slot);
    let a = pixels_of(tile_views(after), width, height, tile_size);
    let b = set_cell(pixels_of(tile_views(tiles), width, height, tile_size), y, x, v);
    let ly = y % tile_size;
    let lx = x % tile_size;
    lemma_tile_index_in_range(x, y, width as int, height as int, tile_size);
    assert(0 <= idx < tiles.len());
    assert(tile_fits(*tiles[idx], tile_size));
    let old_tile = tiles[idx]@;
    assert(old_tile.len() == tile_size);
    assert(old_tile[ly].len() == tile_size);
    assert forall|yy: int| 0 <= yy < height implies #[trigger] a[yy] =~= b[yy] by {
        assert forall|xx: int| 0 <= xx < width implies a[yy][xx] == b[yy][xx] by {
            lemma_tile_index_in_range(xx, yy, width as int, height as int, tile_size);
            let k = tile_index(xx, yy, width as int, tile_size);
            let lyy = yy % tile_size;
            let lxx = xx % tile_size;
            assert(0 <= k < tiles.len());
            assert(tile_fits(*tiles[k], tile_size));
            assert(a[yy][xx] == after[k]@[lyy][lxx]);
            if k == idx {
                assert(after[k]@ == set_cell(old_tile, ly, lx, v));
                assert(old_tile[lyy].len() == tile_size);
                lemma_set_cell(old_tile, ly, lx, v, lyy, lxx);
                if lyy == ly && lxx == lx {
                    lemma_tile_place_injective(xx, yy, x, y, width as int, tile_size);
                }
            } else {
                assert(after[k] == tiles[k]);
                assert(!(xx == x && yy == y));
            }
        }
    }
    assert(a =~= b);
}

/// A mutable handle on the value behind `slot`, by `Arc::make_mut`. The
/// value is the one that `slot` held, or, where other handles share it, a
/// clone of it, which `slot` then holds alone. What is written through the
/// handle is what `slot` holds afterwards.
#[verifier::external_body]
fn make_unique<T: Clone>(slot: &mut Arc<T>) -> (inner: &mut T)
    ensures
        cloned::<T>(**old(slot), *inner),
        **final(slot) == *final(inner),
{
    Arc::make_mut(slot)
}

/// A canvas of `width() x height()` pixels, cut into square tiles of
/// `tile_size()` pixels a side. Documents that were cloned from one another
/// share the tiles that neither has written to since.
#[derive(Debug)]
pub struct Document {
    m_width: usize,
    m_height: usize,
    m_tiles: Vec<Arc<Tile>>,
    m_tile_size: usize,
}

/// The grids that the tiles hold, slot by slot.
pub open spec fn tile_views(tiles: Seq<Arc<Tile>>) -> Seq<Seq<Seq<Color>>> {
    Seq::new(tiles.len(), |k: int| tiles[k]@)
}

/// A tile of a document with tiles of `tile_size` a side has that size.
pub open spec fn tile_fits(tile: Tile, tile_size: int) -> bool {
    tile.wf() && tile.row() == tile_size && tile.col() == tile_size
}

impl View for Document {
    type V = Picture;

    open spec fn view(&self) -> Picture {
        Picture {
            width: self.width() as nat,
            height: self.height() as nat,
            pixels: pixels_of(
                tile_views(self.tiles()),
                self.width() as nat,
                self.height() as nat,
                self.tile_size() as int,
            ),
        }
    }
}

impl Document {
    pub closed spec fn spec_width(&self) -> usize {
        self.m_width
    }

    pub closed spec fn spec_height(&self) -> usize {
        self.m_height
    }

    /// The side of a tile, in pixels.
    pub closed spec fn tile_size(&self) -> usize {
        self.m_tile_size
    }

    /// The tile slots, row by row over the tiles.
    pub closed spec fn tiles(&self) -> Seq<Arc<Tile>> {
        self.m_tiles@
    }

    /// The tile size is positive, there is one slot for every tile that the
    /// canvas touches, and every slot holds a tile of the full size.
    pub open spec fn wf(&self) -> bool {
        &&& self.tile_size() > 0
        &&& self.tiles().len() == ceil_div(self.width() as int, self.tile_size() as int) * ceil_div(
            self.height() as int,
            self.tile_size() as int,
        )
        &&& forall|k: int|
            0 <= k < self.tiles().len() ==> tile_fits(*#[trigger] self.tiles()[k], self.tile_size() as int)
    }

    /// Creates a document of the given size in which every pixel is `color`,
    /// with tiles of 128 pixels a side.
    pub fn new(width: usize, height: usize, color: Color) -> (doc: Self)
        requires
            ceil_div(width as int, 128) * ceil_div(height as int, 128) <= usize::MAX,
        ensures
            doc.wf(),
            doc.tile_size() == 128,
            doc@ == blank(width as nat, height as nat, color),
            forall|k: int| 0 <= k < doc.tiles().len() ==> #[trigger] doc.tiles()[k] == doc.tiles()[0],
    {
        Self::new_with_tile_size(width, height, color, 128)
    }

    /// Creates a document of the given size in which every pixel is `color`,
    /// with tiles of `tile_size` pixels a side. All slots share one tile.
    pub fn new_with_tile_size(width: usize, height: usize, color: Color, tile_size: usize) -> (doc:
        Self)
        requires
            tile_size > 0,
            tile_size * tile_size <= usize::MAX,
            ceil_div(width as int, tile_size as int) * ceil_div(height as int, tile_size as int)
                <= usize::MAX,
        ensures
            doc.wf(),
            doc.tile_size() == tile_size,
            doc@ == blank(width as nat, height as nat, color),
            forall|k: int| 0 <= k < doc.tiles().len() ==> #[trigger] doc.tiles()[k] == doc.tiles()[0],
    {
        let tile = Arc::new(Tile::new(tile_size, tile_size, color));
        let tiles_x = div_ceil(width, tile_size);
        let tiles_y = div_ceil(height, tile_size);
        let count = tiles_x * tiles_y;
        let mut tiles: Vec<Arc<Tile>> = Vec::with_capacity(count);
        let mut k: usize = 0;
        while k < count
            invariant
                k <= count,
                tiles@.len() == k,
                forall|i: int| 0 <= i < k ==> *#[trigger] tiles@[i] == *tile,
            decreases count - k,
        {
            tiles.push(Arc::clone(&tile));
            k += 1;
        }
        let doc = Document { m_width: width, m_height: height, m_tiles: tiles, m_tile_size: tile_size };
        proof {
            let target = blank(width as nat, height as nat, color);
            assert forall|y: int| 0 <= y < height implies #[trigger] doc@.pixels[y]
                =~= target.pixels[y] by {
                assert forall|x: int| 0 <= x < width implies doc@.pixels[y][x] == color by {
                    lemma_tile_index_in_range(
                        x,
                        y,
                        width as int,
                        height as int,
                        tile_size as int,
                    );
                    let i = tile_index(x, y, width as int, tile_size as int);
                    assert(*tiles@[i] == *tile);
                    assert(cloned(color, tile@[y % (tile_size as int)][x % (tile_size as int)]));
                }
            }
            assert(doc@.pixels =~= target.pixels);
        }
        doc
    }

    /// Width of the canvas, in pixels.
    #[verifier::when_used_as_spec(spec_width)]
    pub fn width(&self) -> (w: usize)
        ensures
            w == self.width(),
    {
        self.m_width
    }

    /// Height of the canvas, in pixels.
    #[verifier::when_used_as_spec(spec_height)]
    pub fn height(&self) -> (h: usize)
        ensures
            h == self.height(),
    {
        self.m_height
    }

    /// The slot of the tile that holds pixel `(x, y)`, and the pixel's column
    /// and row inside that tile.
    fn find_location(&self, x: usize, y: usize) -> (loc: (usize, usize, usize))
        requires
            self.wf(),
            x < self.width(),
            y < self.height(),
        ensures
            loc.0 == tile_index(x as int, y as int, self.width() as int, self.tile_size() as int),
            loc.0 < self.tiles().len(),
            loc.1 == x % self.tile_size(),
            loc.2 == y % self.tile_size(),
    {
        proof {
            lemma_tile_index_in_range(
                x as int,
                y as int,
                self.m_width as int,
                self.m_height as int,
                self.m_tile_size as int,
            );
            lemma_block_in_range(y as int, self.m_height as int, self.m_tile_size as int);
            assert(self.m_tiles.len() == self.m_tiles@.len());
        }
        let num_tiles_in_row = div_ceil(self.m_width, self.m_tile_size);
        let row_number = y / self.m_tile_size;
        let col_number = x / self.m_tile_size;
        assert(0 <= row_number * num_tiles_in_row) by (nonlinear_arith)
            requires
                0 <= row_number,
                0 <= num_tiles_in_row,
        ;
        let tile_idx = row_number * num_tiles_in_row + col_number;
        let local_x = x % self.m_tile_size;
        let local_y = y % self.m_tile_size;
        (tile_idx, local_x, local_y)
    }

    /// The pixel in column `x` of row `y`.
    pub fn at(&self, x: usize, y: usize) -> (pixel: &Color)
        requires
            self.wf(),
            x < self.width(),
            y < self.height(),
        ensures
            *pixel == self@.pixels[y as int][x as int],
    {
        let (tile_idx, local_x, local_y) = self.find_location(x, y);
        let tile = &self.m_tiles[tile_idx];
        assert(tile_fits(**tile, self.m_tile_size as int));
        tile.at(local_y, local_x)
    }

    /// Whether the tile slots are as `wf` asks.
    fn is_well_formed(&self) -> (ok: bool)
        ensures
            ok == self.wf(),
    {
        let ts = self.m_tile_size;
        if ts == 0 {
            return false;
        }
        let tiles_x = div_ceil(self.m_width, ts);
        let tiles_y = div_ceil(self.m_height, ts);
        let count = match tiles_x.checked_mul(tiles_y) {
            Some(n) => n,
            None => {
                assert(self.m_tiles.len() == self.m_tiles@.len());
                return false;
            },
        };
        if self.m_tiles.len() != count {
            return false;
        }
        let cells = match ts.checked_mul(ts) {
            Some(n) => n,
            None => {
                if count > 0 {
                    assert(self.m_tiles@[0].data().len() == self.m_tiles@[0].data()@.len());
                    assert(!tile_fits(*self.tiles()[0], ts as int));
                    return false;
                }
                return true;
            },
        };
        let mut k: usize = 0;
        while k < count
            invariant
                k <= count,
                count == self.m_tiles@.len(),
                ts == self.m_tile_size,
                cells == ts * ts,
                forall|i: int| 0 <= i < k ==> tile_fits(*#[trigger] self.tiles()[i], ts as int),
            decreases count - k,
        {
            let tile = &self.m_tiles[k];
            if tile.row() != ts || tile.col() != ts || tile.data().len() != cells {
                assert(!tile_fits(*self.tiles()[k as int], ts as int));
                return false;
            }
            k += 1;
        }
        true
    }

    /// The pixel in column `x` of row `y`, for writing. No other pixel
    /// changes.
    ///
    /// The tile that holds the pixel is made this document's own first: a
    /// tile that other documents share is copied, once, and a tile that
    /// belongs to this document alone is written in place.
    pub fn at_mut(&mut self, x: usize, y: usize) -> (pixel: &mut Color)
        requires
            old(self).wf(),
            x < old(self).width(),
            y < old(self).height(),
        ensures
            *pixel == old(self)@.pixels[y as int][x as int],
            final(self).wf(),
            final(self).tile_size() == old(self).tile_size(),
            final(self)@ == (Picture {
                pixels: set_cell(old(self)@.pixels, y as int, x as int, *final(pixel)),
                ..old(self)@
            }),
            same_tiles_but(
                *old(self),
                *final(self),
                tile_index(
                    x as int,
                    y as int,
                    old(self).width() as int,
                    old(self).tile_size() as int,
                ),
            ),
    {
        let (tile_idx, local_x, local_y) = self.find_location(x, y);
        let ghost before = self.m_tiles@;
        let ghost w = self.m_width as nat;
        let ghost h = self.m_height as nat;
        let ghost ts = self.m_tile_size as int;
        proof {
            assert(tile_fits(*before[tile_idx as int], ts));
            assert forall|slot: Arc<Tile>, v: Color|
                slot@ == #[trigger] set_cell(
                    before[tile_idx as int]@,
                    local_y as int,
                    local_x as int,
                    v,
                ) implies pixels_of(
                tile_views(#[trigger] before.update(tile_idx as int, slot)),
                w,
                h,
                ts,
            ) == set_cell(pixels_of(tile_views(before), w, h, ts), y as int, x as int, v) by {
                lemma_pixels_after_write(before, slot, w, h, ts, x as int, y as int, v);
            }
        }
        let tile = make_unique(&mut self.m_tiles[tile_idx]);
        assert(tile.data()@ == before[tile_idx as int].data()@);
        assert(tile@ == before[tile_idx as int]@);
        tile.at_mut(local_y, local_x)
    }
}

impl Clone for Document {
    /// A document that shows the same picture and shares every tile with
    /// this one.
    fn clone(&self) -> (res: Self)
        ensures
            res@ == self@,
            res.tile_size() == self.tile_size(),
            res.tiles() == self.tiles(),
            res.wf() == self.wf(),
    {
        let count = self.m_tiles.len();
        let mut tiles: Vec<Arc<Tile>> = Vec::with_capacity(count);
        let mut k: usize = 0;
        while k < count
            invariant
                count == self.m_tiles@.len(),
                k <= count,
                tiles@ == self.m_tiles@.subrange(0, k as int),
            decreases count - k,
        {
            tiles.push(Arc::clone(&self.m_tiles[k]));
            k += 1;
            assert(tiles@ =~= self.m_tiles@.subrange(0, k as int));
        }
        assert(tiles@ =~= self.m_tiles@);
        Document {
            m_width: self.m_width,
            m_height: self.m_height,
            m_tiles: tiles,
            m_tile_size: self.m_tile_size,
        }
    }
}

impl PartialEq for Document {
    /// Pixel by pixel, whatever tiles the two documents share.
    fn eq(&self, other: &Self) -> (same: bool) {
        if !self.is_well_formed() || !other.is_well_formed() {
            return false;
        }
        if self.m_width != other.m_width || self.m_height != other.m_height {
            return false;
        }
        let mut y: usize = 0;
        while y < self.m_height
            invariant
                self.wf(),
                other.wf(),
                self.width() == other.width(),
                self.height() == other.height(),
                y <= self.height(),
                forall|r: int| 0 <= r < y ==> #[trigger] self@.pixels[r] == other@.pixels[r],
            decreases self.height() - y,
        {
            let mut x: usize = 0;
            while x < self.m_width
                invariant
                    self.wf(),
                    other.wf(),
                    self.width() == other.width(),
                    self.height() == other.height(),
                    y < self.height(),
                    x <= self.width(),
                    forall|c: int|
                        0 <= c < x ==> self@.pixels[y as int][c] == other@.pixels[y as int][c],
                decreases self.width() - x,
            {
                if *self.at(x, y) != *other.at(x, y) {
                    return false;
                }
                x += 1;
            }
            assert(self@.pixels[y as int] =~= other@.pixels[y as int]);
            y += 1;
        }
        assert(self@.pixels =~= other@.pixels);
        true
    }
}

impl PartialEqSpecImpl for Document {
    open spec fn obeys_eq_spec() -> bool {
        true
    }

    /// Two well-formed documents are equal when they show the same picture:
    /// the same size and the same pixels.
    open spec fn eq_spec(&self, other: &Self) -> bool {
        self.wf() && other.wf() && self@ == other@
    }
}

/// Documents that show the same pixels at the same size are equal, whatever
/// their tiles are and whichever of them they share.
pub proof fn lemma_equal_pixels_equal_documents(a: Document, b: Document)
    requires
        a.wf(),
        b.wf(),
        a.width() == b.width(),
        a.height() == b.height(),
        forall|x: int, y: int|
            0 <= x < a.width() && 0 <= y < a.height() ==> a@.pixels[y][x] == b@.pixels[y][x],
    ensures
        PartialEqSpec::eq_spec(&a, &b),
{
    assert forall|y: int| 0 <= y < a.height() implies #[trigger] a@.pixels[y] =~= b@.pixels[y] by {
        assert forall|x: int| 0 <= x < a.width() implies a@.pixels[y][x] == b@.pixels[y][x] by {}
    }
    assert(a@.pixels =~= b@.pixels);
}

/// The two documents hold the same tile in every slot but slot `t`.
pub open spec fn same_tiles_but(a: Document, b: Document, t: int) -> bool {
    &&& a.tiles().len() == b.tiles().len()
    &&& forall|k: int| 0 <= k < a.tiles().len() && k != t ==> #[trigger] a.tiles()[k] == b.tiles()[k]
}

/// Step `i` of `states` leaves every slot but slot `t` as it was.
pub open spec fn write_step(states: Seq<Document>, i: int, t: int) -> bool {
    same_tiles_but(states[i], states[i + 1], t)
}

/// However many pixels of one tile are written, one after the other, every
/// other slot holds at the end the tile that it held at the start: `states`
/// are the document before the first write and after each write, and `t` is
/// the slot of the tile that all the written pixels lie in.
pub proof fn lemma_writes_into_one_tile(states: Seq<Document>, t: int)
    requires
        states.len() >= 1,
        forall|i: int| 0 <= i < states.len() - 1 ==> #[trigger] write_step(states, i, t),
    ensures
        same_tiles_but(states[0], states.last(), t),
    decreases states.len(),
{
    if states.len() > 1 {
        let shorter = states.drop_last();
        assert forall|i: int| 0 <= i < shorter.len() - 1 implies #[trigger] write_step(
            shorter,
            i,
            t,
        ) by {
            assert(write_step(states, i, t));
        }
        lemma_writes_into_one_tile(shorter, t);
        assert(write_step(states, states.len() - 2, t));
    }
}

/// A clone that has one pixel written differs from the document it was
/// cloned from in that pixel and in no other.
pub proof fn lemma_write_to_clone(
    source: Document,
    copy: Document,
    written: Document,
    x: int,
    y: int,
    value: Color,
)
    requires
        copy@ == source@,
        0 <= x < source.width(),
        0 <= y < source.height(),
        written@ == (Picture { pixels: set_cell(copy@.pixels, y, x, value), ..copy@ }),
    ensures
        written@.width == source@.width,
        written@.height == source@.height,
        written@.pixels[y][x] == value,
        forall|x2: int, y2: int|
            0 <= x2 < source.width() && 0 <= y2 < source.height() && !(x2 == x && y2 == y)
                ==> written@.pixels[y2][x2] == source@.pixels[y2][x2],
{
}

impl CellGrid<Color> for Document {
    /// The pixels, row by row: cell `(r, c)` is the pixel in column `c` of
    /// row `r`.
    open spec fn cells(&self) -> Seq<Seq<Color>> {
        self@.pixels
    }

    open spec fn grid_wf(&self) -> bool {
        self.wf()
    }

    fn n_rows(&self) -> (n: usize) {
        self.m_height
    }

    fn n_cols(&self) -> (n: usize) {
        self.m_width
    }

    fn read(&self, r: usize, c: usize) -> (v: &Color) {
        self.at(c, r)
    }

    fn write(&mut self, r: usize, c: usize, v: Color) {
        *self.at_mut(c, r) = v;
    }
}

/// A canvas of `width() x height()` pixels kept in one grid, with nothing
/// shared between copies.
pub struct FlatDocument {
    data: Matrix<Color>,
}

impl View for FlatDocument {
    type V = Picture;

    open spec fn view(&self) -> Picture {
        Picture {
            width: self.width() as nat,
            height: self.height() as nat,
            pixels: self.grid()@,
        }
    }
}

impl FlatDocument {
    /// The grid that holds the pixels: one row of the grid for each row of
    /// the canvas.
    pub closed spec fn grid(&self) -> Matrix<Color> {
        self.data
    }

    pub open spec fn spec_width(&self) -> usize {
        self.grid().col()
    }

    pub open spec fn spec_height(&self) -> usize {
        self.grid().row()
    }

    pub open spec fn wf(&self) -> bool {
        self.grid().wf()
    }

    /// Creates a document of the given size in which every pixel is `color`.
    pub fn new(width: usize, height: usize, color: Color) -> (doc: Self)
        requires
            height * width <= usize::MAX,
        ensures
            doc.wf(),
            doc@ == blank(width as nat, height as nat, color),
    {
        Self::new_with_tile_size(width, height, color, 128)
    }

    /// Creates a document of the given size in which every pixel is `color`.
    /// The tile size plays no part.
    pub fn new_with_tile_size(width: usize, height: usize, color: Color, _tile_size: usize) -> (doc:
        Self)
        requires
            height * width <= usize::MAX,
        ensures
            doc.wf(),
            doc@ == blank(width as nat, height as nat, color),
    {
        let doc = FlatDocument { data: Matrix::new(height, width, color) };
        proof {
            let target = blank(width as nat, height as nat, color);
            assert forall|y: int| 0 <= y < height implies #[trigger] doc@.pixels[y]
                =~= target.pixels[y] by {
                assert forall|x: int| 0 <= x < width implies doc@.pixels[y][x] == color by {
                    assert(cloned(color, doc.data@[y][x]));
                }
            }
            assert(doc@.pixels =~= target.pixels);
        }
        doc
    }

    /// Width of the canvas, in pixels.
    #[verifier::when_used_as_spec(spec_width)]
    pub fn width(&self) -> (w: usize)
        ensures
            w == self.width(),
    {
        self.data.col()
    }

    /// Height of the canvas, in pixels.
    #[verifier::when_used_as_spec(spec_height)]
    pub fn height(&self) -> (h: usize)
        ensures
            h == self.height(),
    {
        self.data.row()
    }

    /// The pixel in column `x` of row `y`.
    pub fn at(&self, x: usize, y: usize) -> (pixel: &Color)
        requires
            self.wf(),
            x < self.width(),
            y < self.height(),
        ensures
            *pixel == self@.pixels[y as int][x as int],
    {
        self.data.at(y, x)
    }

    /// The pixel in column `x` of row `y`, for writing. No other pixel
    /// changes.
    pub fn at_mut(&mut self, x: usize, y: usize) -> (pixel: &mut Color)
        requires
            old(self).wf(),
            x < old(self).width(),
            y < old(self).height(),
        ensures
            *pixel == old(self)@.pixels[y as int][x as int],
            final(self).wf(),
            final(self)@ == (Picture {
                pixels: set_cell(old(self)@.pixels, y as int, x as int, *final(pixel)),
                ..old(self)@
            }),
    {
        self.data.at_mut(y, x)
    }
}

} // verus!
