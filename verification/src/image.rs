//! The raster types: a colour, a pair of dimensions, and an owned canvas of
//! pixels in row-major order.

use crate::canvas::{
    hit_in_column, last_hit, lemma_coords_in_range, lemma_hit_next_row, lemma_index_coords,
    lemma_index_in_range, lemma_no_rows_no_hit, lemma_resize_same, Canvas,
};
use vstd::prelude::*;
use vstd::std_specs::convert::FromSpecImpl;
use vstd::std_specs::ops::AddSpecImpl;

verus! {

/// An 8-bit-per-channel RGB colour.
#[derive(Clone, Copy, Debug, PartialEq, Eq, Structural)]
pub struct Color {
    pub r: u8,
    pub g: u8,
    pub b: u8,
}

impl Color {
    /// Black, the colour of every pixel that nothing has drawn on.
    pub open spec fn black() -> Color {
        Color { r: 0, g: 0, b: 0 }
    }

    /// The component of channel 0 (red), 1 (green) or 2 (blue).
    pub open spec fn component(self, channel: int) -> u8 {
        if channel == 0 {
            self.r
        } else if channel == 1 {
            self.g
        } else {
            self.b
        }
    }

    pub fn new(r: u8, g: u8, b: u8) -> (c: Self)
        ensures
            c == (Color { r, g, b }),
    {
        Color { r, g, b }
    }

    /// The colour whose components are the first three bytes of `s`.
    pub fn from_slice(s: &[u8]) -> (c: Self)
        requires
            s@.len() >= 3,
        ensures
            c == (Color { r: s@[0], g: s@[1], b: s@[2] }),
    {
        Color { r: s[0], g: s[1], b: s[2] }
    }

    /// The three components in the order red, green, blue.
    pub fn channels(self) -> (out: [u8; 3])
        ensures
            out@ == seq![self.r, self.g, self.b],
    {
        let out = [self.r, self.g, self.b];
        assert(out@ =~= seq![self.r, self.g, self.b]);
        out
    }
}

impl Default for Color {
    fn default() -> (c: Self)
        ensures
            c == Color::black(),
    {
        Color { r: 0, g: 0, b: 0 }
    }
}

impl From<(u8, u8, u8)> for Color {
    fn from(t: (u8, u8, u8)) -> (c: Self) {
        Color { r: t.0, g: t.1, b: t.2 }
    }
}

impl FromSpecImpl<(u8, u8, u8)> for Color {
    open spec fn obeys_from_spec() -> bool {
        true
    }

    open spec fn from_spec(t: (u8, u8, u8)) -> Self {
        Color { r: t.0, g: t.1, b: t.2 }
    }
}

/// A width and a height, in pixels.
#[derive(Clone, Copy, Debug, PartialEq, Eq, Structural)]
pub struct Dimensions {
    pub width: usize,
    pub height: usize,
}

impl Dimensions {
    /// The number of pixels of a raster of these dimensions.
    pub open spec fn area(self) -> nat {
        (self.width * self.height) as nat
    }

    /// Whether a raster of these dimensions can be held: its pixels, three
    /// bytes each, fit the address space.
    pub open spec fn addressable(self) -> bool {
        3 * self.area() <= isize::MAX
    }

    /// The row-major linear index of column `x` in row `y`.
    pub open spec fn index_of(self, x: int, y: int) -> int {
        y * self.width + x
    }

    pub fn new(width: usize, height: usize) -> (d: Self)
        ensures
            d == (Dimensions { width, height }),
    {
        Dimensions { width, height }
    }

    pub fn xytoi(&self, x: usize, y: usize) -> (i: usize)
        requires
            self.index_of(x as int, y as int) <= usize::MAX,
        ensures
            i == self.index_of(x as int, y as int),
    {
        assert(y * self.width <= y * self.width + x) by (nonlinear_arith);
        y * self.width + x
    }

    pub fn maxi(&self) -> (n: usize)
        requires
            self.area() <= usize::MAX,
        ensures
            n == self.area(),
    {
        self.width * self.height
    }

    /// Whether a raster of these dimensions can be held.
    pub fn is_addressable(&self) -> (ok: bool)
        ensures
            ok == self.addressable(),
    {
        match self.width.checked_mul(self.height) {
            Some(area) => area <= (isize::MAX as usize) / 3,
            None => false,
        }
    }
}

impl From<(usize, usize)> for Dimensions {
    fn from(t: (usize, usize)) -> (d: Self) {
        Dimensions { width: t.0, height: t.1 }
    }
}

impl FromSpecImpl<(usize, usize)> for Dimensions {
    open spec fn obeys_from_spec() -> bool {
        true
    }

    open spec fn from_spec(t: (usize, usize)) -> Self {
        Dimensions { width: t.0, height: t.1 }
    }
}

impl core::ops::Add<Dimensions> for Dimensions {
    type Output = Dimensions;

    fn add(self, rhs: Dimensions) -> (sum: Dimensions) {
        Dimensions { width: self.width + rhs.width, height: self.height + rhs.height }
    }
}

impl AddSpecImpl<Dimensions> for Dimensions {
    open spec fn obeys_add_spec() -> bool {
        true
    }

    open spec fn add_req(self, rhs: Dimensions) -> bool {
        self.width + rhs.width <= usize::MAX && self.height + rhs.height <= usize::MAX
    }

    open spec fn add_spec(self, rhs: Dimensions) -> Dimensions {
        Dimensions {
            width: (self.width + rhs.width) as usize,
            height: (self.height + rhs.height) as usize,
        }
    }
}

/// An owned raster: `width * height` pixels in row-major order.
pub struct Image {
    dims: Dimensions,
    container: Vec<Color>,
}

impl View for Image {
    type V = Canvas;

    closed spec fn view(&self) -> Canvas {
        Canvas { dims: self.dims, pixels: self.container@ }
    }
}

impl Image {
    /// The buffer holds exactly one pixel per position.
    pub open spec fn wf(&self) -> bool {
        self@.wf()
    }

    /// A black raster of the given size; an empty one where a side is zero.
    pub fn create(width: usize, height: usize) -> (img: Self)
        requires
            (Dimensions { width, height }).addressable(),
        ensures
            img.wf(),
            img@ == Canvas::blank(Dimensions { width, height }),
    {
        let container = vec![Color::default(); width * height];
        let img = Image { dims: Dimensions { width, height }, container };
        assert(img@.pixels =~= Canvas::blank(Dimensions { width, height }).pixels);
        img
    }

    /// The raster that `buf` describes: interleaved R, G, B bytes, row by row.
    pub fn from_buffer(buf: &[u8], width: usize, height: usize) -> (img: Self)
        requires
            buf@.len() == 3 * (width * height),
        ensures
            img.wf(),
            img@ == Canvas::from_bytes(buf@, Dimensions { width, height }),
    {
        let n: usize = buf.len() / 3;
        let mut colors: Vec<Color> = Vec::with_capacity(n);
        let mut i: usize = 0;
        while i < n
            invariant
                i <= n,
                buf@.len() == 3 * n,
                3 * n <= usize::MAX,
                colors@.len() == i,
                forall|k: int|
                    0 <= k < i ==> colors@[k] == (Color {
                        r: buf@[3 * k],
                        g: buf@[3 * k + 1],
                        b: buf@[3 * k + 2],
                    }),
            decreases n - i,
        {
            colors.push(Color::new(buf[3 * i], buf[3 * i + 1], buf[3 * i + 2]));
            i += 1;
        }
        let img = Image { dims: Dimensions { width, height }, container: colors };
        assert(img@.pixels =~= Canvas::from_bytes(buf@, Dimensions { width, height }).pixels);
        img
    }

    pub fn dimensions(&self) -> (d: Dimensions)
        ensures
            d == self@.dims,
    {
        self.dims
    }

    /// The pixel in column `x` of row `y`.
    pub fn pixel(&self, x: usize, y: usize) -> (c: Color)
        requires
            self.wf(),
            x < self@.dims.width,
            y < self@.dims.height,
        ensures
            c == self@.at(x as int, y as int),
    {
        proof {
            assert(self.container.len() == self@.pixels.len());
            lemma_index_in_range(
                self.dims.width as int,
                self.dims.height as int,
                x as int,
                y as int,
            );
        }
        self.container[self.dims.xytoi(x, y)]
    }

    /// Replaces the pixel in column `x` of row `y`.
    pub fn set_pixel(&mut self, x: usize, y: usize, color: Color)
        requires
            old(self).wf(),
            x < old(self)@.dims.width,
            y < old(self)@.dims.height,
        ensures
            final(self).wf(),
            final(self)@ == old(self)@.painted(x as int, y as int, color),
    {
        proof {
            assert(self.container.len() == self@.pixels.len());
            lemma_index_in_range(
                self.dims.width as int,
                self.dims.height as int,
                x as int,
                y as int,
            );
        }
        let i = self.dims.xytoi(x, y);
        self.container.set(i, color);
    }

    /// Gives the raster new dimensions and returns the old ones. Pixels at
    /// positions that both sizes have stay; the others are black.
    pub fn resize_canvas(&mut self, dimensions: Dimensions) -> (old_dimensions: Dimensions)
        requires
            old(self).wf(),
            dimensions.addressable(),
        ensures
            final(self).wf(),
            final(self)@ == old(self)@.resized(dimensions),
            old_dimensions == old(self)@.dims,
            dimensions == old(self)@.dims ==> final(self)@ == old(self)@,
    {
        let old_dimensions = self.dims;
        let dims = dimensions;
        let mut new = vec![Color::default(); dims.width * dims.height];
        let min_height = if self.dims.height < dims.height {
            self.dims.height
        } else {
            dims.height
        };
        let min_width = if min_height == 0 {
            0
        } else if self.dims.width < dims.width {
            self.dims.width
        } else {
            dims.width
        };
        let ghost before = self@;
        let ghost w = dims.width as int;
        proof {
            assert(self.container.len() == before.pixels.len());
            assert forall|i: int| 0 <= i < new@.len() implies #[trigger] new@[i]
                == Color::black() && 0 <= i % w by {
                lemma_coords_in_range(w, dims.height as int, i);
            }
        }
        let mut x: usize = 0;
        while x < min_width
            invariant
                x <= min_width,
                min_width <= dims.width,
                min_width <= self.dims.width,
                min_height <= dims.height,
                min_height <= self.dims.height,
                self.wf(),
                self@ == before,
                w == dims.width,
                dims.addressable(),
                before.pixels.len() <= usize::MAX,
                new@.len() == dims.area(),
                forall|i: int|
                    0 <= i < new@.len() ==> #[trigger] new@[i] == if i % w < x && i / w
                        < min_height {
                        before.at(i % w, i / w)
                    } else {
                        Color::black()
                    },
            decreases min_width - x,
        {
            let mut y: usize = 0;
            while y < min_height
                invariant
                    x < min_width,
                    y <= min_height,
                    min_width <= dims.width,
                    min_width <= self.dims.width,
                    min_height <= dims.height,
                    min_height <= self.dims.height,
                    self.wf(),
                    self@ == before,
                    w == dims.width,
                    dims.addressable(),
                    before.pixels.len() <= usize::MAX,
                    new@.len() == dims.area(),
                    forall|i: int|
                        0 <= i < new@.len() ==> #[trigger] new@[i] == if (i % w < x && i / w
                            < min_height) || (i % w == x && i / w < y) {
                            before.at(i % w, i / w)
                        } else {
                            Color::black()
                        },
                decreases min_height - y,
            {
                proof {
                    lemma_index_in_range(w, dims.height as int, x as int, y as int);
                    lemma_index_in_range(
                        self.dims.width as int,
                        self.dims.height as int,
                        x as int,
                        y as int,
                    );
                    lemma_index_coords(w, x as int, y as int);
                }
                let target = dims.xytoi(x, y);
                let source = self.dims.xytoi(x, y);
                let ghost prev = new@;
                new.set(target, self.container[source]);
                proof {
                    assert forall|i: int| 0 <= i < new@.len() implies #[trigger] new@[i] == if (i
                        % w < x && i / w < min_height) || (i % w == x && i / w < y + 1) {
                        before.at(i % w, i / w)
                    } else {
                        Color::black()
                    } by {
                        lemma_coords_in_range(w, dims.height as int, i);
                        if i != target {
                            assert(new@[i] == prev[i]);
                        }
                    }
                }
                y += 1;
            }
            x += 1;
        }
        self.dims = dims;
        self.container = new;
        proof {
            assert forall|i: int| 0 <= i < dims.area() implies self@.pixels[i]
                == before.resized_pixel(dims, i) by {
                lemma_coords_in_range(w, dims.height as int, i);
            }
            assert(self@.pixels =~= before.resized(dims).pixels);
            if dims == before.dims {
                lemma_resize_same(before);
            }
        }
        old_dimensions
    }

    /// What an encoder of 8-bit RGB takes: width, height and the packed bytes.
    /// There is none where a side does not fit 32 bits.
    pub fn to_rgb8(&self) -> (out: Option<(u32, u32, Vec<u8>)>)
        ensures
            out is Some <==> self@.dims.width <= u32::MAX && self@.dims.height <= u32::MAX,
            out matches Some(parts) ==> parts.0 == self@.dims.width && parts.1 == self@.dims.height
                && parts.2@ == self@.bytes(),
    {
        if self.dims.width > u32::MAX as usize || self.dims.height > u32::MAX as usize {
            return None;
        }
        Some((self.dims.width as u32, self.dims.height as u32, self.as_bytes()))
    }

    /// The pixels as tightly packed bytes, three per pixel in the order R, G, B.
    pub fn as_bytes(&self) -> (bytes: Vec<u8>)
        ensures
            bytes@ == self@.bytes(),
    {
        let mut bytes: Vec<u8> = Vec::new();
        let mut i: usize = 0;
        while i < self.container.len()
            invariant
                i <= self.container@.len(),
                bytes@.len() == 3 * i,
                forall|k: int|
                    0 <= k < bytes@.len() ==> #[trigger] bytes@[k] == self.container@[k
                        / 3].component(k % 3),
            decreases self.container@.len() - i,
        {
            let c = self.container[i];
            bytes.push(c.r);
            bytes.push(c.g);
            bytes.push(c.b);
            i += 1;
        }
        assert(bytes@ =~= self@.bytes());
        bytes
    }
}

/// The linear index `(row_offset + sy) * width + (column_offset + sx)`, or
/// `None` where it does not fit the machine word.
fn target_index(width: usize, pos: Dimensions, sx: usize, sy: usize) -> (target: Option<usize>)
    ensures
        target == if (pos.height + sy) * width + (pos.width + sx) <= usize::MAX {
            Some(((pos.height + sy) * width + (pos.width + sx)) as usize)
        } else {
            None
        },
{
    let ghost row = pos.height + sy;
    let ghost column = pos.width + sx;
    assert(0 <= row * width) by (nonlinear_arith)
        requires
            0 <= row,
            0 <= width,
    ;
    let column = match pos.width.checked_add(sx) {
        Some(column) => column,
        None => {
            return None;
        },
    };
    if width == 0 {
        assert(row * width == 0) by (nonlinear_arith)
            requires
                width == 0,
        ;
        return Some(column);
    }
    let row = match pos.height.checked_add(sy) {
        Some(row) => row,
        None => {
            assert(row * width >= row) by (nonlinear_arith)
                requires
                    width >= 1,
                    row >= 0,
            ;
            return None;
        },
    };
    let base = match row.checked_mul(width) {
        Some(base) => base,
        None => {
            return None;
        },
    };
    base.checked_add(column)
}

impl Image {
    /// Draws `other` on this raster with its top left corner at column
    /// `pos.width`, row `pos.height`. Each source pixel goes to the linear
    /// index of its destination position: what falls beyond the buffer is
    /// dropped, and what overhangs the right edge continues in the next row.
    pub fn draw_image(&mut self, other: &Image, pos: Dimensions)
        requires
            old(self).wf(),
            other.wf(),
        ensures
            final(self).wf(),
            final(self)@ == old(self)@.drawn(other@, pos),
    {
        let n = self.container.len();
        let width = self.dims.width;
        let ghost before = self@;
        let ghost w = width as int;
        let ghost src_h = other.dims.height as int;
        proof {
            assert(other.container.len() == other@.pixels.len());
        }
        if other.dims.height == 0 {
            proof {
                assert forall|i: int| 0 <= i < n implies last_hit(
                    w,
                    0,
                    pos,
                    i,
                    other.dims.width as nat,
                ) is None by {
                    lemma_no_rows_no_hit(w, pos, i, other.dims.width as nat);
                }
                assert(self@.pixels =~= before.drawn(other@, pos).pixels);
            }
            return ;
        }
        let mut sx: usize = 0;
        while sx < other.dims.width
            invariant
                sx <= other.dims.width,
                other.wf(),
                other@.pixels.len() <= usize::MAX,
                before.wf(),
                self.dims == before.dims,
                width == before.dims.width,
                w == width,
                src_h == other.dims.height,
                n == before.pixels.len(),
                self.container@.len() == n,
                forall|i: int|
                    0 <= i < n ==> #[trigger] self.container@[i] == before.overwritten(
                        other@,
                        i,
                        last_hit(w, src_h, pos, i, sx as nat),
                    ),
            decreases other.dims.width - sx,
        {
            let mut sy: usize = 0;
            while sy < other.dims.height
                invariant
                    sx < other.dims.width,
                    sy <= other.dims.height,
                    other.wf(),
                    other@.pixels.len() <= usize::MAX,
                    before.wf(),
                    self.dims == before.dims,
                    width == before.dims.width,
                    w == width,
                    src_h == other.dims.height,
                    n == before.pixels.len(),
                    self.container@.len() == n,
                    forall|i: int|
                        0 <= i < n ==> #[trigger] self.container@[i] == before.overwritten(
                            other@,
                            i,
                            match hit_in_column(w, pos, i, sx as int, sy as int) {
                                Some(row) => Some((sx as int, row)),
                                None => last_hit(w, src_h, pos, i, sx as nat),
                            },
                        ),
                decreases other.dims.height - sy,
            {
                proof {
                    lemma_index_in_range(
                        other.dims.width as int,
                        other.dims.height as int,
                        sx as int,
                        sy as int,
                    );
                }
                let theirs = other.dims.xytoi(sx, sy);
                let ghost prev = self.container@;
                let ghost landing = (pos.height + sy) * w + (pos.width + sx);
                match target_index(width, pos, sx, sy) {
                    Some(ours) => {
                        if ours < n {
                            self.container.set(ours, other.container[theirs]);
                        }
                    },
                    None => {},
                }
                proof {
                    assert forall|i: int| 0 <= i < n implies #[trigger] self.container@[i]
                        == before.overwritten(
                        other@,
                        i,
                        match hit_in_column(w, pos, i, sx as int, sy + 1) {
                            Some(row) => Some((sx as int, row)),
                            None => last_hit(w, src_h, pos, i, sx as nat),
                        },
                    ) by {
                        lemma_hit_next_row(w, pos, i, sx as int, sy as int);
                        if i == landing {
                            if w == 0 {
                                assert(before.dims.area() == 0) by (nonlinear_arith)
                                    requires
                                        before.dims.width == 0,
                                ;
                            }
                        } else {
                            assert(self.container@[i] == prev[i]);
                        }
                    }
                }
                sy += 1;
            }
            sx += 1;
        }
        assert(self@.pixels =~= before.drawn(other@, pos).pixels);
    }
}

} // verus!
