//! The mathematical content of a raster, and what resizing, drawing and
//! flattening do to it.

use crate::arith::lemma_split;
use crate::image::{Color, Dimensions};
use vstd::arithmetic::div_mod::{lemma_fundamental_div_mod, lemma_fundamental_div_mod_converse};
use vstd::prelude::*;

verus! {

/// A raster as a value: its dimensions and its pixels in row-major order.
pub struct Canvas {
    pub dims: Dimensions,
    pub pixels: Seq<Color>,
}

/// The source row of source column `sx` that a blit at `pos` writes to the
/// linear index `i` of a destination `dst_width` wide, if that row is among
/// the first `rows`.
pub open spec fn hit_in_column(
    dst_width: int,
    pos: Dimensions,
    i: int,
    sx: int,
    rows: int,
) -> Option<int> {
    let rest = i - pos.width - sx;
    let sy = rest / dst_width - pos.height;
    if dst_width > 0 && rest >= 0 && rest % dst_width == 0 && 0 <= sy < rows {
        Some(sy)
    } else {
        None
    }
}

/// The source pixel, among the first `columns` source columns, that a blit
/// writes last to the linear index `i`. Columns are drawn left to right, so
/// the rightmost column that lands on `i` wins.
pub open spec fn last_hit(
    dst_width: int,
    src_height: int,
    pos: Dimensions,
    i: int,
    columns: nat,
) -> Option<(int, int)>
    decreases columns,
{
    if columns == 0 {
        None
    } else {
        match hit_in_column(dst_width, pos, i, columns - 1, src_height) {
            Some(sy) => Some((columns - 1, sy)),
            None => last_hit(dst_width, src_height, pos, i, (columns - 1) as nat),
        }
    }
}

impl Canvas {
    /// The pixel buffer has one entry per position.
    pub open spec fn wf(self) -> bool {
        self.pixels.len() == self.dims.area()
    }

    /// The pixel in column `x` of row `y`.
    pub open spec fn at(self, x: int, y: int) -> Color {
        self.pixels[self.dims.index_of(x, y)]
    }

    /// The all-black canvas of the given dimensions.
    pub open spec fn blank(dims: Dimensions) -> Canvas {
        Canvas { dims, pixels: Seq::new(dims.area(), |i: int| Color::black()) }
    }

    /// The canvas that interleaved R, G, B bytes describe.
    pub open spec fn from_bytes(bytes: Seq<u8>, dims: Dimensions) -> Canvas {
        Canvas {
            dims,
            pixels: Seq::new(
                (bytes.len() / 3) as nat,
                |i: int| Color { r: bytes[3 * i], g: bytes[3 * i + 1], b: bytes[3 * i + 2] },
            ),
        }
    }

    /// The pixels as tightly packed bytes: R, G, B of each pixel in turn.
    pub open spec fn bytes(self) -> Seq<u8> {
        Seq::new(3 * self.pixels.len(), |i: int| self.pixels[i / 3].component(i % 3))
    }

    /// The pixel at linear index `i` of this canvas after a resize to `dims`:
    /// the old pixel of the same position where there was one, black elsewhere.
    pub open spec fn resized_pixel(self, dims: Dimensions, i: int) -> Color {
        let x = i % (dims.width as int);
        let y = i / (dims.width as int);
        if x < self.dims.width && y < self.dims.height {
            self.at(x, y)
        } else {
            Color::black()
        }
    }

    /// This canvas resized to `dims`, keeping the overlapping region.
    pub open spec fn resized(self, dims: Dimensions) -> Canvas {
        Canvas { dims, pixels: Seq::new(dims.area(), |i: int| self.resized_pixel(dims, i)) }
    }

    /// The pixel at linear index `i` once the source pixel `hit`, if any, has
    /// been written there.
    pub open spec fn overwritten(self, other: Canvas, i: int, hit: Option<(int, int)>) -> Color {
        match hit {
            Some((sx, sy)) => other.at(sx, sy),
            None => self.pixels[i],
        }
    }

    /// This canvas after `other` has been drawn on it with its top left corner
    /// at column `pos.width`, row `pos.height`. A source pixel goes to the
    /// linear index of its destination position and is dropped where that index
    /// lies beyond the buffer.
    pub open spec fn drawn(self, other: Canvas, pos: Dimensions) -> Canvas {
        Canvas {
            dims: self.dims,
            pixels: Seq::new(
                self.pixels.len(),
                |i: int|
                    self.overwritten(
                        other,
                        i,
                        last_hit(
                            self.dims.width as int,
                            other.dims.height as int,
                            pos,
                            i,
                            other.dims.width as nat,
                        ),
                    ),
            ),
        }
    }

    /// This canvas with the pixel in column `x` of row `y` replaced by `color`.
    pub open spec fn painted(self, x: int, y: int, color: Color) -> Canvas {
        Canvas { dims: self.dims, pixels: self.pixels.update(self.dims.index_of(x, y), color) }
    }

    /// The dimensions of the canvas that holds `self` with `below` beneath it:
    /// as wide as the wider of the two, as high as both together.
    pub open spec fn stacked_dims(self, below: Canvas) -> Dimensions {
        Dimensions {
            width: if self.dims.width >= below.dims.width {
                self.dims.width
            } else {
                below.dims.width
            },
            height: (self.dims.height + below.dims.height) as usize,
        }
    }

    /// The canvas that holds `self` on top and `below` beneath it: `self`
    /// resized to the dimensions of the stack, with `below` drawn at the left
    /// edge under its last row.
    pub open spec fn stacked(self, below: Canvas) -> Canvas {
        self.resized(self.stacked_dims(below)).drawn(
            below,
            Dimensions { width: 0, height: self.dims.height },
        )
    }
}

/// The linear index of a position gives the position back.
pub proof fn lemma_index_coords(width: int, x: int, y: int)
    requires
        0 <= x < width,
    ensures
        (y * width + x) % width == x,
        (y * width + x) / width == y,
{
    lemma_fundamental_div_mod_converse(y * width + x, width, y, x);
}

/// A linear index below `width * height` names a position inside the raster.
pub proof fn lemma_coords_in_range(width: int, height: int, i: int)
    requires
        0 <= i < width * height,
        0 <= width,
        0 <= height,
    ensures
        width > 0,
        0 <= i % width < width,
        0 <= i / width < height,
        i == (i / width) * width + i % width,
{
    assert(width > 0) by (nonlinear_arith)
        requires
            0 <= i < width * height,
            0 <= width,
    ;
    lemma_fundamental_div_mod(i, width);
    let q = i / width;
    let r = i % width;
    assert(i == width * q + r);
    assert(0 <= r < width);
    assert(0 <= q < height) by (nonlinear_arith)
        requires
            0 <= i < width * height,
            i == width * q + r,
            0 <= r < width,
            0 <= height,
    ;
    assert(width * q == q * width) by (nonlinear_arith);
}

/// A position inside a raster has a linear index below its area.
pub proof fn lemma_index_in_range(width: int, height: int, x: int, y: int)
    requires
        0 <= x < width,
        0 <= y < height,
    ensures
        0 <= y * width + x < width * height,
{
    assert(0 <= y * width + x < width * height) by (nonlinear_arith)
        requires
            0 <= x < width,
            0 <= y < height,
    ;
}

/// A source without rows lands nowhere.
pub proof fn lemma_no_rows_no_hit(dst_width: int, pos: Dimensions, i: int, columns: nat)
    ensures
        last_hit(dst_width, 0, pos, i, columns) is None,
    decreases columns,
{
    if columns > 0 {
        lemma_no_rows_no_hit(dst_width, pos, i, (columns - 1) as nat);
    }
}

/// Taking one more source row of a column into account changes what lands on
/// `i` only where that row's pixel goes to `i` itself.
pub proof fn lemma_hit_next_row(dst_width: int, pos: Dimensions, i: int, sx: int, rows: int)
    requires
        0 <= rows,
        0 <= sx,
        0 <= i,
        0 <= dst_width,
    ensures
        hit_in_column(dst_width, pos, i, sx, rows + 1) == if dst_width > 0 && i == (pos.height
            + rows) * dst_width + (pos.width + sx) {
            Some(rows)
        } else {
            hit_in_column(dst_width, pos, i, sx, rows)
        },
{
    if dst_width > 0 {
        let rest = i - pos.width - sx;
        let row = pos.height + rows;
        if i == row * dst_width + (pos.width + sx) {
            lemma_fundamental_div_mod_converse(rest, dst_width, row, 0);
        } else if rest >= 0 && rest % dst_width == 0 && rest / dst_width == row {
            lemma_fundamental_div_mod(rest, dst_width);
            assert(dst_width * row == row * dst_width) by (nonlinear_arith);
        }
    }
}

/// Resizing a canvas to the dimensions it has changes nothing.
pub proof fn lemma_resize_same(c: Canvas)
    requires
        c.wf(),
    ensures
        c.resized(c.dims) == c,
{
    assert forall|i: int| 0 <= i < c.dims.area() implies c.resized_pixel(c.dims, i)
        == c.pixels[i] by {
        lemma_coords_in_range(c.dims.width as int, c.dims.height as int, i);
    }
    assert(c.resized(c.dims).pixels =~= c.pixels);
}

/// A resized canvas shows the old pixel wherever the old canvas had one, and
/// black elsewhere.
pub proof fn lemma_resized_at(c: Canvas, dims: Dimensions, x: int, y: int)
    requires
        0 <= x < dims.width,
        0 <= y < dims.height,
    ensures
        c.resized(dims).wf(),
        c.resized(dims).at(x, y) == if x < c.dims.width && y < c.dims.height {
            c.at(x, y)
        } else {
            Color::black()
        },
{
    lemma_index_in_range(dims.width as int, dims.height as int, x, y);
    lemma_index_coords(dims.width as int, x, y);
}

/// A resize followed by a resize back to the first dimensions keeps every
/// pixel of the region that both sizes share.
pub proof fn lemma_resize_round_trip(c: Canvas, dims: Dimensions, x: int, y: int)
    requires
        0 <= x < c.dims.width,
        x < dims.width,
        0 <= y < c.dims.height,
        y < dims.height,
    ensures
        c.resized(dims).resized(c.dims).wf(),
        c.resized(dims).resized(c.dims).dims == c.dims,
        c.resized(dims).resized(c.dims).at(x, y) == c.at(x, y),
{
    lemma_resized_at(c.resized(dims), c.dims, x, y);
    lemma_resized_at(c, dims, x, y);
}

/// Where the source does not reach beyond the right edge of the destination,
/// the only source pixel that lands on a position is the one that lies there.
proof fn lemma_last_hit_inside(
    dst_width: int,
    src_height: int,
    pos: Dimensions,
    x: int,
    y: int,
    columns: nat,
)
    requires
        0 <= x < dst_width,
        0 <= y,
        pos.width + columns <= dst_width,
    ensures
        last_hit(dst_width, src_height, pos, y * dst_width + x, columns) == if pos.width <= x
            < pos.width + columns && pos.height <= y < pos.height + src_height {
            Some((x - pos.width, y - pos.height))
        } else {
            None
        },
    decreases columns,
{
    if columns > 0 {
        lemma_last_hit_inside(dst_width, src_height, pos, x, y, (columns - 1) as nat);
        let sx = columns - 1;
        let i = y * dst_width + x;
        let rest = i - pos.width - sx;
        let d = x - pos.width - sx;
        if d == 0 {
            lemma_index_coords(dst_width, 0, y);
        } else if d > 0 {
            lemma_index_coords(dst_width, d, y);
        } else if rest >= 0 {
            assert(rest == (y - 1) * dst_width + (dst_width + d)) by (nonlinear_arith)
                requires
                    rest == y * dst_width + d,
            ;
            lemma_index_coords(dst_width, dst_width + d, y - 1);
        }
    }
}

/// Where the source does not reach beyond the right edge of the destination,
/// drawing replaces exactly the pixels under the source and keeps the rest;
/// what would lie below the last row is dropped.
pub proof fn lemma_drawn_at(c: Canvas, other: Canvas, pos: Dimensions, x: int, y: int)
    requires
        c.wf(),
        pos.width + other.dims.width <= c.dims.width,
        0 <= x < c.dims.width,
        0 <= y < c.dims.height,
    ensures
        c.drawn(other, pos).wf(),
        c.drawn(other, pos).at(x, y) == if pos.width <= x < pos.width + other.dims.width
            && pos.height <= y < pos.height + other.dims.height {
            other.at(x - pos.width, y - pos.height)
        } else {
            c.at(x, y)
        },
{
    lemma_index_in_range(c.dims.width as int, c.dims.height as int, x, y);
    lemma_last_hit_inside(
        c.dims.width as int,
        other.dims.height as int,
        pos,
        x,
        y,
        other.dims.width as nat,
    );
}

/// A stack shows the upper canvas in its upper rows and the lower canvas in
/// the rows beneath, each from the left edge, and black beside the narrower
/// of the two.
pub proof fn lemma_stacked_at(top: Canvas, below: Canvas, x: int, y: int)
    requires
        top.wf(),
        top.dims.height + below.dims.height <= usize::MAX,
        0 <= x < top.stacked_dims(below).width,
        0 <= y < top.dims.height + below.dims.height,
    ensures
        top.stacked(below).wf(),
        top.stacked(below).dims == top.stacked_dims(below),
        top.stacked(below).at(x, y) == if y < top.dims.height {
            if x < top.dims.width {
                top.at(x, y)
            } else {
                Color::black()
            }
        } else {
            if x < below.dims.width {
                below.at(x, y - top.dims.height)
            } else {
                Color::black()
            }
        },
{
    let dims = top.stacked_dims(below);
    let pos = Dimensions { width: 0, height: top.dims.height };
    lemma_resized_at(top, dims, x, y);
    lemma_drawn_at(top.resized(dims), below, pos, x, y);
}

/// Flattening a canvas and reading the bytes back gives the canvas again.
pub proof fn lemma_bytes_round_trip(c: Canvas)
    ensures
        c.bytes().len() == 3 * c.pixels.len(),
        Canvas::from_bytes(c.bytes(), c.dims) == c,
{
    assert(Canvas::from_bytes(c.bytes(), c.dims).pixels =~= c.pixels);
}

} // verus!
