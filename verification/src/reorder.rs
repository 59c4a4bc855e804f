//! Histograms do not see the order of the pixels they count: neither the
//! counter nor the scope changes when whole pixels change places.

use crate::canvas::{lemma_index_coords, Canvas};
use crate::counter::{histogram_of, occurrences};
use crate::image::Color;
use crate::waveform::{column_bytes, waveform_level};
use vstd::prelude::*;
use vstd::seq_lib::{to_multiset_contains, to_multiset_len, to_multiset_remove};

verus! {

/// How many of `pixels` hold `value` in channel `channel`.
pub open spec fn count_in(pixels: Seq<Color>, channel: int, value: int) -> nat
    decreases pixels.len(),
{
    if pixels.len() == 0 {
        0
    } else {
        count_in(pixels.drop_last(), channel, value) + if pixels.last().component(channel)
            == value {
            1nat
        } else {
            0nat
        }
    }
}

/// The pixels of column `x` of a raster, from top to bottom.
pub open spec fn column_pixels(src: Canvas, x: int) -> Seq<Color> {
    Seq::new(src.dims.height as nat, |y: int| src.at(x, y))
}

/// A value occurs in a channel of the packed bytes as often as pixels hold
/// it in that channel.
pub proof fn lemma_occurrences_count_pixels(c: Canvas, channel: int, value: int)
    requires
        0 <= channel < 3,
    ensures
        occurrences(c.bytes(), channel, value) == count_in(c.pixels, channel, value),
    decreases c.pixels.len(),
{
    let n = c.pixels.len() as int;
    if n > 0 {
        let shorter = Canvas { dims: c.dims, pixels: c.pixels.drop_last() };
        lemma_occurrences_count_pixels(shorter, channel, value);
        let all = c.bytes();
        let two = all.drop_last();
        let one = two.drop_last();
        let none = one.drop_last();
        assert(none =~= shorter.bytes());
        assert(all[3 * n - 1] == c.pixels.last().b);
        assert(two[3 * n - 2] == c.pixels.last().g);
        assert(one[3 * n - 3] == c.pixels.last().r);
        assert(occurrences(one, channel, value) == occurrences(none, channel, value) + if channel
            == 0 && c.pixels.last().r == value {
            1nat
        } else {
            0nat
        });
        assert(occurrences(two, channel, value) == occurrences(one, channel, value) + if channel
            == 1 && c.pixels.last().g == value {
            1nat
        } else {
            0nat
        });
        assert(occurrences(all, channel, value) == occurrences(two, channel, value) + if channel
            == 2 && c.pixels.last().b == value {
            1nat
        } else {
            0nat
        });
    } else {
        assert(c.bytes() =~= Seq::<u8>::empty());
    }
}

/// Taking a pixel out lowers the count by one where the pixel held the value.
proof fn lemma_count_without(pixels: Seq<Color>, j: int, channel: int, value: int)
    requires
        0 <= j < pixels.len(),
    ensures
        count_in(pixels, channel, value) == count_in(pixels.remove(j), channel, value)
            + if pixels[j].component(channel) == value {
            1nat
        } else {
            0nat
        },
    decreases pixels.len(),
{
    if j == pixels.len() - 1 {
        assert(pixels.remove(j) =~= pixels.drop_last());
    } else {
        lemma_count_without(pixels.drop_last(), j, channel, value);
        assert(pixels.remove(j).drop_last() =~= pixels.drop_last().remove(j));
        assert(pixels.remove(j).last() == pixels.last());
    }
}

/// Two sequences of the same pixels in any order hold every value equally
/// often.
pub proof fn lemma_count_ignores_order(a: Seq<Color>, b: Seq<Color>, channel: int, value: int)
    requires
        a.to_multiset() == b.to_multiset(),
    ensures
        count_in(a, channel, value) == count_in(b, channel, value),
    decreases a.len(),
{
    to_multiset_len(a);
    to_multiset_len(b);
    if a.len() > 0 {
        let last = a.len() - 1;
        let x = a[last];
        assert(a.contains(x));
        to_multiset_contains(a, x);
        to_multiset_contains(b, x);
        let j = choose|j: int| 0 <= j < b.len() && b[j] == x;
        to_multiset_remove(a, last);
        to_multiset_remove(b, j);
        assert(a.remove(last) =~= a.drop_last());
        lemma_count_ignores_order(a.drop_last(), b.remove(j), channel, value);
        lemma_count_without(b, j, channel, value);
    }
}

/// The histogram of a channel is the same for two rasters that hold the same
/// pixels, in whatever order and shape.
pub proof fn lemma_histogram_ignores_order(a: Canvas, b: Canvas, channel: int)
    requires
        0 <= channel < 3,
        a.pixels.to_multiset() == b.pixels.to_multiset(),
    ensures
        histogram_of(a.bytes(), channel) == histogram_of(b.bytes(), channel),
{
    assert forall|v: int| 0 <= v < 256 implies occurrences(a.bytes(), channel, v) == occurrences(
        b.bytes(),
        channel,
        v,
    ) by {
        lemma_occurrences_count_pixels(a, channel, v);
        lemma_occurrences_count_pixels(b, channel, v);
        lemma_count_ignores_order(a.pixels, b.pixels, channel, v);
    }
    assert(histogram_of(a.bytes(), channel) =~= histogram_of(b.bytes(), channel));
}

/// The scope of a column is the same for two rasters of one width whose
/// column holds the same pixels, in whatever vertical order.
pub proof fn lemma_scope_ignores_column_order(
    a: Canvas,
    b: Canvas,
    height: usize,
    x: int,
    y: int,
    channel: int,
)
    requires
        a.dims.width == b.dims.width,
        0 <= x < a.dims.width,
        0 <= channel < 3,
        column_pixels(a, x).to_multiset() == column_pixels(b, x).to_multiset(),
    ensures
        waveform_level(a, height, y * a.dims.width + x, channel) == waveform_level(
            b,
            height,
            y * b.dims.width + x,
            channel,
        ),
{
    let w = a.dims.width as int;
    lemma_index_coords(w, x, y);
    let ca = Canvas { dims: a.dims, pixels: column_pixels(a, x) };
    let cb = Canvas { dims: b.dims, pixels: column_pixels(b, x) };
    assert(column_bytes(a, x) =~= ca.bytes());
    assert(column_bytes(b, x) =~= cb.bytes());
    lemma_histogram_ignores_order(ca, cb, 0);
    lemma_histogram_ignores_order(ca, cb, 1);
    lemma_histogram_ignores_order(ca, cb, 2);
}

} // verus!
