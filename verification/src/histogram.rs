//! The bar chart of three channel histograms: one bar per output column and
//! channel, as high as the interpolated count is large.

use crate::arith::{lemma_round_div, lemma_split, round_div};
use crate::canvas::{lemma_coords_in_range, lemma_index_coords, lemma_index_in_range, Canvas};
use crate::counter::{count_whole_image, histogram_of, largest};
use crate::image::{Color, Dimensions, Image};
use vstd::prelude::*;

verus! {

/// Why a renderer produced no raster.
#[derive(Clone, Copy, Debug, PartialEq, Eq, Structural)]
pub enum RenderError {
    /// The pixels of the requested raster do not fit the address space.
    InvalidDimensions,
}

/// The bucket to the left of output column `x`: the column's position in the
/// bucket domain, `x * 255 / width`, rounded down.
pub open spec fn left_bucket(x: int, width: int) -> int {
    (x * 255) / width
}

/// How far column `x` lies from its left bucket towards the next one, in
/// `width`-ths of the distance between the two.
pub open spec fn offset(x: int, width: int) -> int {
    (x * 255) % width
}

/// `width` times the count shown in column `x`: the counts of the two
/// neighbouring buckets, interpolated linearly.
pub open spec fn displayed(values: Seq<u64>, x: int, width: int) -> int {
    let col = left_bucket(x, width);
    let part = offset(x, width);
    values[col] * (width - part) + values[col + 1] * part
}

/// The height of the bar in column `x`: the displayed count over `max`, times
/// `height`, rounded; zero where `max` is zero.
pub open spec fn bar_height(values: Seq<u64>, max: u64, x: int, width: int, height: int) -> int {
    if max == 0 {
        0
    } else {
        round_div(displayed(values, x, width) * height, width * max)
    }
}

/// Whether row `y` of column `x` belongs to the bar, which stands on the
/// bottom row.
pub open spec fn lit(values: Seq<u64>, max: u64, x: int, y: int, width: int, height: int) -> bool {
    y + bar_height(values, max, x, width, height) >= height
}

/// Full intensity for a lit channel, none for a dark one.
pub open spec fn level(on: bool) -> u8 {
    if on {
        255
    } else {
        0
    }
}

/// The pixel at linear index `i` of the bar chart: each channel is lit where
/// its own bar reaches.
pub open spec fn histogram_pixel(
    max: u64,
    reds: Seq<u64>,
    greens: Seq<u64>,
    blues: Seq<u64>,
    dims: Dimensions,
    i: int,
) -> Color {
    let w = dims.width as int;
    let h = dims.height as int;
    let x = i % w;
    let y = i / w;
    Color {
        r: level(lit(reds, max, x, y, w, h)),
        g: level(lit(greens, max, x, y, w, h)),
        b: level(lit(blues, max, x, y, w, h)),
    }
}

/// The bar chart of three histograms on a raster of the given dimensions.
pub open spec fn histogram_canvas(
    max: u64,
    reds: Seq<u64>,
    greens: Seq<u64>,
    blues: Seq<u64>,
    dims: Dimensions,
) -> Canvas {
    Canvas {
        dims,
        pixels: Seq::new(dims.area(), |i: int| histogram_pixel(max, reds, greens, blues, dims, i)),
    }
}

/// The left bucket of a column of the raster has a right neighbour.
pub proof fn lemma_left_bucket_in_range(x: int, width: int)
    requires
        0 <= x < width,
    ensures
        0 <= left_bucket(x, width) < 255,
        0 <= offset(x, width) < width,
{
    lemma_split(x * 255, width);
    let q = (x * 255) / width;
    let r = (x * 255) % width;
    assert(q < 255) by (nonlinear_arith)
        requires
            x * 255 == q * width + r,
            0 <= r,
            0 <= x < width,
    ;
}

/// Where no bucket holds anything, or `max` is zero, the chart is black.
pub proof fn lemma_flat_histogram_is_blank(
    max: u64,
    reds: Seq<u64>,
    greens: Seq<u64>,
    blues: Seq<u64>,
    dims: Dimensions,
)
    requires
        max == 0,
    ensures
        histogram_canvas(max, reds, greens, blues, dims) == Canvas::blank(dims),
{
    assert forall|i: int| 0 <= i < dims.area() implies histogram_pixel(
        max,
        reds,
        greens,
        blues,
        dims,
        i,
    ) == Color::black() by {
        lemma_coords_in_range(dims.width as int, dims.height as int, i);
    }
    assert(histogram_canvas(max, reds, greens, blues, dims).pixels =~= Canvas::blank(dims).pixels);
}

/// A bar is never higher than the raster where no bucket holds more than
/// `max`.
pub proof fn lemma_bar_within_height(values: Seq<u64>, max: u64, x: int, width: int, height: int)
    requires
        values.len() == 256,
        forall|v: int| 0 <= v < 256 ==> #[trigger] values[v] <= max,
        0 <= x < width,
        0 <= height,
    ensures
        0 <= bar_height(values, max, x, width, height) <= height,
{
    if max > 0 {
        lemma_left_bucket_in_range(x, width);
        let col = left_bucket(x, width);
        let part = offset(x, width);
        let left = values[col] as int;
        let right = values[col + 1] as int;
        let scaled = displayed(values, x, width);
        let num = scaled * height;
        let den = width * max;
        assert(0 <= scaled <= den) by (nonlinear_arith)
            requires
                scaled == left * (width - part) + right * part,
                den == width * max,
                0 <= left <= max,
                0 <= right <= max,
                0 <= part < width,
        ;
        assert(0 <= num <= den * height && 0 < den) by (nonlinear_arith)
            requires
                num == scaled * height,
                0 <= scaled <= den,
                0 <= height,
                den == width * max,
                0 < width,
                0 < max,
        ;
        lemma_round_div(num, den);
        lemma_split(num, den);
        let q = num / den;
        let r = num % den;
        assert(q < height || (q == height && r == 0)) by (nonlinear_arith)
            requires
                num == q * den + r,
                0 <= r < den,
                num <= den * height,
                0 <= q,
        ;
    }
}

/// The height of the bar of one channel in column `x`, capped at the height of
/// the raster.
fn bar(values: &[u64; 256], max: u64, x: usize, width: usize, height: usize) -> (rows: usize)
    requires
        x < width,
        width * height <= usize::MAX,
    ensures
        rows <= height,
        rows == if bar_height(values@, max, x as int, width as int, height as int) <= height {
            bar_height(values@, max, x as int, width as int, height as int)
        } else {
            height as int
        },
{
    if max == 0 {
        return 0;
    }
    let p: u128 = (x as u128) * 255;
    let w: u128 = width as u128;
    proof {
        lemma_left_bucket_in_range(x as int, width as int);
    }
    let col = (p / w) as usize;
    let part: u128 = p % w;
    let left: u128 = values[col] as u128;
    let right: u128 = values[col + 1] as u128;
    let h: u128 = height as u128;
    let m: u128 = max as u128;
    let ghost top: int = 0xffff_ffff_ffff_ffff;
    proof {
        assert(left * (w - part) + right * part <= top * w) by (nonlinear_arith)
            requires
                0 <= left <= top,
                0 <= right <= top,
                0 <= part < w,
        ;
        assert(top * w <= top * top) by (nonlinear_arith)
            requires
                0 <= w <= top,
        ;
        assert(0 <= left * (w - part) && 0 <= right * part) by (nonlinear_arith)
            requires
                0 <= left,
                0 <= right,
                0 <= part < w,
        ;
    }
    let scaled: u128 = left * (w - part) + right * part;
    proof {
        assert(scaled * h <= top * top) by (nonlinear_arith)
            requires
                0 <= scaled <= top * w,
                0 <= h,
                0 <= w,
                w * h <= top,
        ;
        assert(0 < w * m <= top * top) by (nonlinear_arith)
            requires
                0 < w <= top,
                0 < m <= top,
        ;
    }
    let num: u128 = scaled * h;
    let den: u128 = w * m;
    let q: u128 = num / den;
    let r: u128 = num % den;
    proof {
        lemma_split(num as int, den as int);
        lemma_round_div(num as int, den as int);
    }
    let rounded: u128 = if r >= den - r {
        q + 1
    } else {
        q
    };
    if rounded >= h {
        height
    } else {
        rounded as usize
    }
}

/// The pixel of row `y` in a column whose three bars are `red`, `green` and
/// `blue` rows high.
fn bar_pixel(y: usize, height: usize, red: usize, green: usize, blue: usize) -> (c: Color)
    requires
        y < height,
        red <= height,
        green <= height,
        blue <= height,
    ensures
        c == (Color {
            r: level(y + red >= height),
            g: level(y + green >= height),
            b: level(y + blue >= height),
        }),
{
    Color::new(
        if y >= height - red {
            255
        } else {
            0
        },
        if y >= height - green {
            255
        } else {
            0
        },
        if y >= height - blue {
            255
        } else {
            0
        },
    )
}

/// Draws the bar chart of three histograms on a raster `width` by `height`.
/// The 256 buckets are spread over the columns by linear interpolation, and a
/// bar is `height` rows high where its count equals `max`. With `max` zero
/// every bar is empty and the raster black. A raster with a side of zero has
/// no pixels and is returned as such; only a raster too large to be held is
/// refused.
pub fn generate_histogram_image(
    max: u64,
    reds: &[u64; 256],
    greens: &[u64; 256],
    blues: &[u64; 256],
    width: usize,
    height: usize,
) -> (out: Result<Image, RenderError>)
    ensures
        out is Ok <==> (Dimensions { width, height }).addressable(),
        out matches Ok(img) ==> img.wf() && img@ == histogram_canvas(
            max,
            reds@,
            greens@,
            blues@,
            Dimensions { width, height },
        ),
        out matches Err(e) ==> e == RenderError::InvalidDimensions,
        out matches Ok(img) ==> max == 0 || width == 0 || height == 0 ==> img@ == Canvas::blank(
            Dimensions { width, height },
        ),
{
    if !Dimensions::new(width, height).is_addressable() {
        return Err(RenderError::InvalidDimensions);
    }
    let ghost dims = Dimensions { width, height };
    let ghost w = width as int;
    let ghost h = height as int;
    let mut image = Image::create(width, height);
    if width == 0 || height == 0 {
        proof {
            assert(dims.area() == 0) by (nonlinear_arith)
                requires
                    dims.area() == dims.width * dims.height,
                    dims.width == 0 || dims.height == 0,
            ;
            assert(image@.pixels =~= histogram_canvas(max, reds@, greens@, blues@, dims).pixels);
        }
        return Ok(image);
    }
    let mut x: usize = 0;
    while x < width
        invariant
            x <= width,
            dims.addressable(),
            dims == (Dimensions { width, height }),
            w == width,
            h == height,
            image.wf(),
            image@.dims == dims,
            forall|i: int|
                0 <= i < dims.area() ==> #[trigger] image@.pixels[i] == if i % w < x {
                    histogram_pixel(max, reds@, greens@, blues@, dims, i)
                } else {
                    Color::black()
                },
        decreases width - x,
    {
        let red = bar(reds, max, x, width, height);
        let green = bar(greens, max, x, width, height);
        let blue = bar(blues, max, x, width, height);
        let mut y: usize = 0;
        while y < height
            invariant
                x < width,
                y <= height,
                dims.addressable(),
                dims == (Dimensions { width, height }),
                w == width,
                h == height,
                image.wf(),
                image@.dims == dims,
                red <= height,
                green <= height,
                blue <= height,
                red == if bar_height(reds@, max, x as int, w, h) <= h {
                    bar_height(reds@, max, x as int, w, h)
                } else {
                    h
                },
                green == if bar_height(greens@, max, x as int, w, h) <= h {
                    bar_height(greens@, max, x as int, w, h)
                } else {
                    h
                },
                blue == if bar_height(blues@, max, x as int, w, h) <= h {
                    bar_height(blues@, max, x as int, w, h)
                } else {
                    h
                },
                forall|i: int|
                    0 <= i < dims.area() ==> #[trigger] image@.pixels[i] == if i % w < x || (i % w
                        == x && i / w < y) {
                        histogram_pixel(max, reds@, greens@, blues@, dims, i)
                    } else {
                        Color::black()
                    },
            decreases height - y,
        {
            let ghost prev = image@;
            let ghost target = dims.index_of(x as int, y as int);
            image.set_pixel(x, y, bar_pixel(y, height, red, green, blue));
            proof {
                lemma_index_coords(w, x as int, y as int);
                lemma_index_in_range(w, h, x as int, y as int);
                assert forall|i: int| 0 <= i < dims.area() implies #[trigger] image@.pixels[i]
                    == if i % w < x || (i % w == x && i / w < y + 1) {
                    histogram_pixel(max, reds@, greens@, blues@, dims, i)
                } else {
                    Color::black()
                } by {
                    lemma_coords_in_range(w, h, i);
                    if i != target {
                        assert(image@.pixels[i] == prev.pixels[i]);
                    }
                }
            }
            y += 1;
        }
        proof {
            assert forall|i: int| 0 <= i < dims.area() implies #[trigger] image@.pixels[i] == if i
                % w < x + 1 {
                histogram_pixel(max, reds@, greens@, blues@, dims, i)
            } else {
                Color::black()
            } by {
                lemma_coords_in_range(w, h, i);
            }
        }
        x += 1;
    }
    proof {
        assert forall|i: int| 0 <= i < dims.area() implies #[trigger] image@.pixels[i]
            == histogram_pixel(max, reds@, greens@, blues@, dims, i) && (max == 0
            ==> image@.pixels[i] == Color::black()) by {
            lemma_coords_in_range(w, h, i);
        }
        assert(image@.pixels =~= histogram_canvas(max, reds@, greens@, blues@, dims).pixels);
        if max == 0 {
            assert(image@.pixels =~= Canvas::blank(dims).pixels);
        }
    }
    Ok(image)
}

/// The bar chart of the channel histograms of `img`, `width` by `height`,
/// with the largest count of any bucket as the full height. It is refused
/// only where it is too large to be held.
pub fn make_histogram(img: &Image, width: usize, height: usize) -> (out: Result<Image, RenderError>)
    requires
        img.wf(),
    ensures
        out is Ok <==> (Dimensions { width, height }).addressable(),
        out matches Ok(chart) ==> chart.wf() && chart@ == histogram_canvas(
            largest(
                histogram_of(img@.bytes(), 0),
                histogram_of(img@.bytes(), 1),
                histogram_of(img@.bytes(), 2),
            ),
            histogram_of(img@.bytes(), 0),
            histogram_of(img@.bytes(), 1),
            histogram_of(img@.bytes(), 2),
            Dimensions { width, height },
        ),
        out matches Ok(chart) ==> width == 0 || height == 0 ==> chart@ == Canvas::blank(
            Dimensions { width, height },
        ),
        out matches Err(e) ==> e == RenderError::InvalidDimensions,
{
    let bytes = img.as_bytes();
    let (max, reds, greens, blues) = count_whole_image(bytes.as_slice());
    generate_histogram_image(max, &reds, &greens, &blues, width, height)
}

} // verus!
