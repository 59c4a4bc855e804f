//! The waveform scope of a raster: for each column the histogram of that
//! column alone, drawn upwards from the bottom row with a brightness that
//! grows with the logarithm of the count.

use crate::arith::{
    lemma_pow_base_increases, lemma_pow_succ, lemma_round_div, lemma_split, round_div,
};
use crate::bignat::BigNat;
use crate::canvas::{lemma_coords_in_range, lemma_index_coords, lemma_index_in_range, Canvas};
use crate::counter::{
    count_whole_image, histogram_of, holds_at, largest, lemma_largest_is_peak, occurrences,
    positions,
};
use crate::histogram::RenderError;
use crate::image::{Color, Dimensions, Image};
use vstd::arithmetic::power::{lemma_pow_positive, lemma_pow_strictly_increases, pow};
use vstd::prelude::*;

verus! {

/// The full brightness of a channel, which also scales the logarithm.
pub const FULL: u8 = 255;

/// The largest `k` up to `limit` with `base` to the `k` at most `value` to the
/// 255, or zero where there is none.
pub open spec fn level_upto(value: int, base: int, limit: nat) -> nat
    decreases limit,
{
    if limit == 0 {
        0
    } else if pow(base, limit) <= pow(value, FULL as nat) {
        limit
    } else {
        level_upto(value, base, (limit - 1) as nat)
    }
}

/// The brightness of a bucket that holds `value` where the fullest bucket
/// holds `base`: the logarithm of `value` to the base `base`, times 255,
/// rounded down and capped at 255. An empty bucket is dark, and so is every
/// bucket where the base is 0 or 1 and has no logarithm.
pub open spec fn log_level(value: int, base: int) -> nat {
    if value <= 0 || base <= 1 {
        0
    } else {
        level_upto(value, base, FULL as nat)
    }
}

/// What `log_level` names is 255 times the logarithm, rounded down and capped:
/// `base` to that power does not exceed `value` to the 255, and below the cap
/// one more factor `base` does.
pub proof fn lemma_log_level_is_floor(value: int, base: int)
    requires
        value >= 1,
        base >= 2,
    ensures
        log_level(value, base) <= FULL,
        pow(base, log_level(value, base)) <= pow(value, FULL as nat),
        log_level(value, base) < FULL ==> pow(base, log_level(value, base) + 1) > pow(
            value,
            FULL as nat,
        ),
{
    lemma_level_upto(value, base, FULL as nat);
}

proof fn lemma_level_upto(value: int, base: int, limit: nat)
    requires
        value >= 1,
        base >= 2,
    ensures
        level_upto(value, base, limit) <= limit,
        pow(base, level_upto(value, base, limit)) <= pow(value, FULL as nat),
        level_upto(value, base, limit) < limit ==> pow(base, level_upto(value, base, limit) + 1)
            > pow(value, FULL as nat),
    decreases limit,
{
    if limit == 0 {
        reveal(pow);
        lemma_pow_positive(value, FULL as nat);
    } else if pow(base, limit) <= pow(value, FULL as nat) {
    } else {
        lemma_level_upto(value, base, (limit - 1) as nat);
    }
}

/// A `k` whose power fits while the next does not is the level.
proof fn lemma_level_found(value: int, base: int, k: nat, limit: nat)
    requires
        value >= 1,
        base >= 2,
        k <= limit,
        pow(base, k) <= pow(value, FULL as nat),
        k < limit ==> pow(base, k + 1) > pow(value, FULL as nat),
    ensures
        level_upto(value, base, limit) == k,
    decreases limit,
{
    if limit > k {
        if limit > k + 1 {
            lemma_pow_strictly_increases(base as nat, k + 1, limit);
        }
        lemma_level_found(value, base, k, (limit - 1) as nat);
    }
}

/// The fullest bucket is as bright as can be.
pub proof fn lemma_log_level_of_base(base: int)
    requires
        base >= 2,
    ensures
        log_level(base, base) == FULL,
{
}

/// `value` to the 255.
fn power_255(value: u64) -> (out: BigNat)
    ensures
        out.wf(),
        out@ == pow(value as int, FULL as nat),
{
    let mut out = BigNat::from_u64(1);
    let mut e: usize = 0;
    proof {
        reveal(pow);
    }
    while e < 255
        invariant
            e <= 255,
            out.wf(),
            out@ == pow(value as int, e as nat),
        decreases 255 - e,
    {
        proof {
            lemma_pow_succ(value as int, e as nat);
            let p = pow(value as int, e as nat);
            assert(p * value == value * p) by (nonlinear_arith);
        }
        out = out.mul_small(value);
        e += 1;
    }
    out
}

/// The brightness of a bucket that holds `value` where the fullest bucket of
/// the column holds `base`.
pub fn normalize(value: u64, base: u64) -> (out: u8)
    ensures
        out == log_level(value as int, base as int),
{
    if value == 0 || base <= 1 {
        return 0;
    }
    if value >= base {
        proof {
            lemma_pow_base_increases(base as int, value as int, FULL as nat);
        }
        return 255;
    }
    let target = power_255(value);
    let mut reached = BigNat::from_u64(1);
    let mut k: u8 = 0;
    proof {
        reveal(pow);
        lemma_pow_positive(value as int, FULL as nat);
    }
    while k < 255
        invariant_except_break
            reached.wf(),
            reached@ == pow(base as int, k as nat),
        invariant
            k <= 255,
            value >= 1,
            base >= 2,
            target.wf(),
            target@ == pow(value as int, FULL as nat),
            pow(base as int, k as nat) <= target@,
        ensures
            k < 255 ==> pow(base as int, (k + 1) as nat) > target@,
        decreases 255 - k,
    {
        proof {
            lemma_pow_succ(base as int, k as nat);
            let p = pow(base as int, k as nat);
            assert(p * base == base * p) by (nonlinear_arith);
        }
        let next = reached.mul_small(base);
        if next.le(&target) {
            reached = next;
            k += 1;
        } else {
            break ;
        }
    }
    proof {
        lemma_level_found(value as int, base as int, k as nat, FULL as nat);
    }
    k
}

/// `powers` holds the powers of `base` from the 0th to the 255th.
pub open spec fn is_power_table(powers: Seq<BigNat>, base: int) -> bool {
    &&& powers.len() == 256
    &&& forall|k: int|
        0 <= k < 256 ==> (#[trigger] powers[k]).wf() && powers[k]@ == pow(base, k as nat)
}

/// The powers of `base` from the 0th to the 255th.
fn powers_of(base: u64) -> (powers: Vec<BigNat>)
    ensures
        is_power_table(powers@, base as int),
{
    let mut powers: Vec<BigNat> = Vec::with_capacity(256);
    powers.push(BigNat::from_u64(1));
    proof {
        reveal(pow);
    }
    let mut k: usize = 0;
    while k < 255
        invariant
            k <= 255,
            powers@.len() == k + 1,
            forall|j: int|
                0 <= j <= k ==> (#[trigger] powers@[j]).wf() && powers@[j]@ == pow(
                    base as int,
                    j as nat,
                ),
        decreases 255 - k,
    {
        proof {
            lemma_pow_succ(base as int, k as nat);
            let p = pow(base as int, k as nat);
            assert(p * base == base * p) by (nonlinear_arith);
        }
        let next = powers[k].mul_small(base);
        powers.push(next);
        k += 1;
    }
    powers
}

/// The brightness of a bucket that holds `value`, found among the powers of
/// the count `base` of the fullest bucket.
fn level_among(powers: &Vec<BigNat>, value: u64, base: u64) -> (out: u8)
    requires
        is_power_table(powers@, base as int),
        value >= 1,
        base >= 2,
    ensures
        out == log_level(value as int, base as int),
{
    let target = power_255(value);
    proof {
        reveal(pow);
        lemma_pow_positive(value as int, FULL as nat);
    }
    let mut low: usize = 0;
    let mut high: usize = 256;
    while high - low > 1
        invariant
            low < high <= 256,
            is_power_table(powers@, base as int),
            target.wf(),
            powers@[low as int]@ <= target@,
            high < 256 ==> powers@[high as int]@ > target@,
        decreases high - low,
    {
        let mid = low + (high - low) / 2;
        if powers[mid].le(&target) {
            low = mid;
        } else {
            high = mid;
        }
    }
    proof {
        lemma_level_found(value as int, base as int, low as nat, FULL as nat);
    }
    low as u8
}

/// The brightness of every bucket of one channel of a column whose fullest
/// bucket holds `max`.
fn column_levels(counts: &[u64; 256], max: u64) -> (levels: [u8; 256])
    ensures
        forall|v: int|
            0 <= v < 256 ==> #[trigger] levels@[v] == log_level(counts@[v] as int, max as int),
{
    let mut levels = [0u8;256];
    if max <= 1 {
        return levels;
    }
    let powers = powers_of(max);
    let mut v: usize = 0;
    while v < 256
        invariant
            v <= 256,
            max >= 2,
            is_power_table(powers@, max as int),
            forall|k: int|
                0 <= k < v ==> #[trigger] levels@[k] == log_level(counts@[k] as int, max as int),
        decreases 256 - v,
    {
        let count = counts[v];
        if count == 0 {
            levels[v] = 0;
        } else if count >= max {
            proof {
                lemma_pow_base_increases(max as int, count as int, FULL as nat);
            }
            levels[v] = 255;
        } else if v > 0 && count == counts[v - 1] {
            levels[v] = levels[v - 1];
        } else {
            levels[v] = level_among(&powers, count, max);
        }
        v += 1;
    }
    levels
}

/// The samples of column `x` of a raster from top to bottom: R, G, B of each
/// pixel in turn.
pub open spec fn column_bytes(src: Canvas, x: int) -> Seq<u8> {
    Seq::new(3 * src.dims.height as nat, |i: int| src.at(x, i / 3).component(i % 3))
}

/// The bucket shown in the row that lies `up` rows above the bottom row of a
/// scope `height` rows high: `up / height * 255`, rounded.
pub open spec fn row_bucket(up: int, height: int) -> int {
    round_div(up * 255, height)
}

/// The brightness of channel `channel` at linear index `i` of the scope of
/// `src` that is `height` rows high: that of the bucket of the row, in the
/// histogram of the pixel's own column, with the fullest bucket of that column
/// as the base.
pub open spec fn waveform_level(src: Canvas, height: usize, i: int, channel: int) -> nat {
    let w = src.dims.width as int;
    let data = column_bytes(src, i % w);
    let bucket = row_bucket(height - 1 - i / w, height as int);
    log_level(
        histogram_of(data, channel)[bucket] as int,
        largest(histogram_of(data, 0), histogram_of(data, 1), histogram_of(data, 2)) as int,
    )
}

/// The pixel at linear index `i` of the scope.
pub open spec fn waveform_pixel(src: Canvas, height: usize, i: int) -> Color {
    Color {
        r: waveform_level(src, height, i, 0) as u8,
        g: waveform_level(src, height, i, 1) as u8,
        b: waveform_level(src, height, i, 2) as u8,
    }
}

/// The scope of `src`, as wide as `src` and `height` rows high.
pub open spec fn waveform_canvas(src: Canvas, height: usize) -> Canvas {
    let dims = Dimensions { width: src.dims.width, height };
    Canvas { dims, pixels: Seq::new(dims.area(), |i: int| waveform_pixel(src, height, i)) }
}

/// Every row of a scope shows a bucket.
pub proof fn lemma_row_bucket_in_range(up: int, height: int)
    requires
        0 <= up < height,
    ensures
        0 <= row_bucket(up, height) <= 255,
{
    lemma_round_div(up * 255, height);
    lemma_split(up * 255, height);
    let q = (up * 255) / height;
    let r = (up * 255) % height;
    assert(q < 255) by (nonlinear_arith)
        requires
            up * 255 == q * height + r,
            0 <= r,
            0 <= up < height,
    ;
}

/// The samples of column `x` of `img`, from top to bottom.
fn column_samples(img: &Image, x: usize) -> (data: Vec<u8>)
    requires
        img.wf(),
        x < img@.dims.width,
    ensures
        data@ == column_bytes(img@, x as int),
{
    let height = img.dimensions().height;
    let mut data: Vec<u8> = Vec::new();
    let mut y: usize = 0;
    while y < height
        invariant
            y <= height,
            height == img@.dims.height,
            img.wf(),
            x < img@.dims.width,
            data@.len() == 3 * y,
            forall|k: int|
                0 <= k < data@.len() ==> #[trigger] data@[k] == img@.at(x as int, k / 3).component(
                    k % 3,
                ),
        decreases height - y,
    {
        let c = img.pixel(x, y);
        data.push(c.r);
        data.push(c.g);
        data.push(c.b);
        y += 1;
    }
    assert(data@ =~= column_bytes(img@, x as int));
    data
}

/// The bucket shown `up` rows above the bottom row.
fn bucket_of_row(up: usize, height: usize) -> (bucket: usize)
    requires
        up < height,
    ensures
        bucket == row_bucket(up as int, height as int),
        bucket <= 255,
{
    let num: u128 = (up as u128) * 255;
    let den: u128 = height as u128;
    proof {
        lemma_round_div(num as int, den as int);
        lemma_row_bucket_in_range(up as int, height as int);
        lemma_split(num as int, den as int);
    }
    let q: u128 = num / den;
    let r: u128 = num % den;
    let rounded: u128 = if r >= den - r {
        q + 1
    } else {
        q
    };
    rounded as usize
}

/// Draws the waveform scope of `img`: as wide as `img`, `height` rows high.
/// Column `x` shows the histogram of column `x` of `img` alone. The row that
/// lies `up` rows above the bottom row shows bucket `up / height * 255`,
/// rounded, and each channel is as bright there as the logarithm of its count
/// to the base of the column's fullest bucket says. A scope with a side of
/// zero has no pixels and is returned as such; only a scope too large to be
/// held is refused.
pub fn make_waveform_graph(img: &Image, height: usize) -> (out: Result<Image, RenderError>)
    requires
        img.wf(),
    ensures
        out is Ok <==> (Dimensions { width: img@.dims.width, height }).addressable(),
        out matches Ok(scope) ==> scope.wf() && scope@ == waveform_canvas(img@, height),
        out matches Ok(scope) ==> img@.dims.width == 0 || height == 0 ==> scope@ == Canvas::blank(
            Dimensions { width: img@.dims.width, height },
        ),
        out matches Err(e) ==> e == RenderError::InvalidDimensions,
{
    let width = img.dimensions().width;
    if !Dimensions::new(width, height).is_addressable() {
        return Err(RenderError::InvalidDimensions);
    }
    let ghost dims = Dimensions { width, height };
    let ghost w = width as int;
    let ghost h = height as int;
    let ghost src = img@;
    let mut scope = Image::create(width, height);
    if width == 0 || height == 0 {
        proof {
            assert(dims.area() == 0) by (nonlinear_arith)
                requires
                    dims.area() == dims.width * dims.height,
                    dims.width == 0 || dims.height == 0,
            ;
            assert(scope@.pixels =~= waveform_canvas(src, height).pixels);
        }
        return Ok(scope);
    }
    let mut x: usize = 0;
    while x < width
        invariant
            x <= width,
            dims.addressable(),
            dims == (Dimensions { width, height }),
            w == width,
            h == height,
            img.wf(),
            src == img@,
            src.dims.width == width,
            scope.wf(),
            scope@.dims == dims,
            forall|i: int|
                0 <= i < dims.area() ==> #[trigger] scope@.pixels[i] == if i % w < x {
                    waveform_pixel(src, height, i)
                } else {
                    Color::black()
                },
        decreases width - x,
    {
        let data = column_samples(img, x);
        let (max, reds, greens, blues) = count_whole_image(data.as_slice());
        let red_levels = column_levels(&reds, max);
        let green_levels = column_levels(&greens, max);
        let blue_levels = column_levels(&blues, max);
        let ghost column = column_bytes(src, x as int);
        proof {
            assert forall|i: int| 0 <= i < dims.area() implies #[trigger] scope@.pixels[i] == if i
                % w < x || (i % w == x && i / w >= height) {
                waveform_pixel(src, height, i)
            } else {
                Color::black()
            } by {
                lemma_coords_in_range(w, h, i);
            }
        }
        let mut up: usize = 0;
        while up < height
            invariant
                x < width,
                up <= height,
                dims.addressable(),
                dims == (Dimensions { width, height }),
                w == width,
                h == height,
                src.dims.width == width,
                scope.wf(),
                scope@.dims == dims,
                column == column_bytes(src, x as int),
                reds@ == histogram_of(column, 0),
                greens@ == histogram_of(column, 1),
                blues@ == histogram_of(column, 2),
                max == largest(reds@, greens@, blues@),
                forall|v: int|
                    0 <= v < 256 ==> #[trigger] red_levels@[v] == log_level(
                        reds@[v] as int,
                        max as int,
                    ),
                forall|v: int|
                    0 <= v < 256 ==> #[trigger] green_levels@[v] == log_level(
                        greens@[v] as int,
                        max as int,
                    ),
                forall|v: int|
                    0 <= v < 256 ==> #[trigger] blue_levels@[v] == log_level(
                        blues@[v] as int,
                        max as int,
                    ),
                forall|i: int|
                    0 <= i < dims.area() ==> #[trigger] scope@.pixels[i] == if i % w < x || (i % w
                        == x && i / w >= height - up) {
                        waveform_pixel(src, height, i)
                    } else {
                        Color::black()
                    },
            decreases height - up,
        {
            let bucket = bucket_of_row(up, height);
            let y = height - 1 - up;
            let ghost prev = scope@;
            let ghost target = dims.index_of(x as int, y as int);
            scope.set_pixel(
                x,
                y,
                Color::new(red_levels[bucket], green_levels[bucket], blue_levels[bucket]),
            );
            proof {
                lemma_index_coords(w, x as int, y as int);
                lemma_index_in_range(w, h, x as int, y as int);
                assert forall|i: int| 0 <= i < dims.area() implies #[trigger] scope@.pixels[i]
                    == if i % w < x || (i % w == x && i / w >= height - (up + 1)) {
                    waveform_pixel(src, height, i)
                } else {
                    Color::black()
                } by {
                    lemma_coords_in_range(w, h, i);
                    if i != target {
                        assert(scope@.pixels[i] == prev.pixels[i]);
                    }
                }
            }
            up += 1;
        }
        proof {
            assert forall|i: int| 0 <= i < dims.area() implies #[trigger] scope@.pixels[i] == if i
                % w < x + 1 {
                waveform_pixel(src, height, i)
            } else {
                Color::black()
            } by {
                lemma_coords_in_range(w, h, i);
            }
        }
        x += 1;
    }
    proof {
        assert forall|i: int| 0 <= i < dims.area() implies #[trigger] scope@.pixels[i]
            == waveform_pixel(src, height, i) by {
            lemma_coords_in_range(w, h, i);
        }
        assert(scope@.pixels =~= waveform_canvas(src, height).pixels);
    }
    Ok(scope)
}

/// In a buffer whose every sample of a channel is the same, that one value
/// occurs once per position of the channel and no other value occurs at all.
proof fn lemma_uniform_occurrences(data: Seq<u8>, color: Color, channel: int, value: int, n: nat)
    requires
        0 <= channel < 3,
        n <= data.len(),
        forall|k: int| 0 <= k < data.len() ==> #[trigger] data[k] == color.component(k % 3),
    ensures
        occurrences(data.take(n as int), channel, value) == if value == color.component(channel) {
            positions(n, channel)
        } else {
            0
        },
    decreases n,
{
    if n > 0 {
        lemma_uniform_occurrences(data, color, channel, value, (n - 1) as nat);
        assert(data.take(n as int).drop_last() =~= data.take(n - 1));
        assert(data.take(n as int)[n - 1] == data[n - 1]);
    }
}

/// The histograms of a column that holds one colour only: the whole column in
/// the bucket of that colour's component, nothing elsewhere, and the height of
/// the column as the largest count.
pub proof fn lemma_uniform_column(src: Canvas, x: int, color: Color)
    requires
        forall|y: int| 0 <= y < src.dims.height ==> src.at(x, y) == color,
    ensures
        forall|channel: int, v: int|
            0 <= channel < 3 && 0 <= v < 256 ==> #[trigger] histogram_of(
                column_bytes(src, x),
                channel,
            )[v] == if v == color.component(channel) {
                src.dims.height as u64
            } else {
                0
            },
        largest(
            histogram_of(column_bytes(src, x), 0),
            histogram_of(column_bytes(src, x), 1),
            histogram_of(column_bytes(src, x), 2),
        ) == src.dims.height,
{
    let data = column_bytes(src, x);
    let rows = src.dims.height as u64;
    assert forall|k: int| 0 <= k < data.len() implies #[trigger] data[k] == color.component(
        k % 3,
    ) by {
        assert(src.at(x, k / 3) == color);
    }
    assert(data.take(data.len() as int) =~= data);
    assert forall|channel: int, v: int|
        0 <= channel < 3 && 0 <= v < 256 implies #[trigger] histogram_of(data, channel)[v] == if v
        == color.component(channel) {
        rows
    } else {
        0
    } by {
        lemma_uniform_occurrences(data, color, channel, v, data.len());
    }
    let reds = histogram_of(data, 0);
    let greens = histogram_of(data, 1);
    let blues = histogram_of(data, 2);
    let max = largest(reds, greens, blues);
    lemma_largest_is_peak(reds, greens, blues);
    let v = choose|v: int| holds_at(max, reds, greens, blues, v);
    assert(holds_at(max, reds, greens, blues, v));
    assert(reds[v] == histogram_of(data, 0)[v]);
    assert(greens[v] == histogram_of(data, 1)[v]);
    assert(blues[v] == histogram_of(data, 2)[v]);
    assert(reds[color.r as int] == histogram_of(data, 0)[color.r as int]);
    assert(reds[color.r as int] <= max);
}

/// The scope of a column that holds one colour only, at least two rows of it:
/// a channel is at full brightness in the rows that show the bucket of the
/// colour's component, and dark in all other rows.
pub proof fn lemma_uniform_column_scope(
    src: Canvas,
    height: usize,
    color: Color,
    x: int,
    y: int,
)
    requires
        src.dims.height >= 2,
        0 <= x < src.dims.width,
        0 <= y < height,
        forall|row: int| 0 <= row < src.dims.height ==> src.at(x, row) == color,
    ensures
        0 <= row_bucket(height - 1 - y, height as int) <= 255,
        forall|channel: int|
            0 <= channel < 3 ==> #[trigger] waveform_level(
                src,
                height,
                y * src.dims.width + x,
                channel,
            ) == if row_bucket(height - 1 - y, height as int) == color.component(channel) {
                255nat
            } else {
                0nat
            },
{
    let w = src.dims.width as int;
    let i = y * w + x;
    let bucket = row_bucket(height - 1 - y, height as int);
    lemma_index_coords(w, x, y);
    lemma_row_bucket_in_range(height - 1 - y, height as int);
    lemma_uniform_column(src, x, color);
    lemma_log_level_of_base(src.dims.height as int);
    let data = column_bytes(src, x);
    assert forall|channel: int| 0 <= channel < 3 implies #[trigger] waveform_level(
        src,
        height,
        i,
        channel,
    ) == if bucket == color.component(channel) {
        255nat
    } else {
        0nat
    } by {
        assert(histogram_of(data, channel)[bucket] == if bucket == color.component(channel) {
            src.dims.height as u64
        } else {
            0
        });
    }
}

} // verus!
