//! Stacking a rendered raster beneath its source.

use crate::canvas::Canvas;
use crate::image::{Dimensions, Image};
use vstd::prelude::*;

verus! {

/// The two rasters fit on one canvas, one beneath the other.
pub open spec fn stackable(top: Canvas, below: Canvas) -> bool {
    &&& top.dims.height + below.dims.height <= usize::MAX
    &&& top.stacked_dims(below).addressable()
}

/// Whether `composite` can stack the two rasters.
pub fn can_stack(source: &Image, rendered: &Image) -> (ok: bool)
    ensures
        ok == stackable(source@, rendered@),
{
    let top = source.dimensions();
    let below = rendered.dimensions();
    let width = if top.width >= below.width {
        top.width
    } else {
        below.width
    };
    match top.height.checked_add(below.height) {
        Some(height) => Dimensions::new(width, height).is_addressable(),
        None => false,
    }
}

/// Puts `rendered` beneath `source` on one canvas: the source is resized to
/// the width of the wider of the two and the height of both together, and
/// `rendered` is drawn at the left edge, below the last row of the source.
pub fn composite(source: Image, rendered: &Image) -> (out: Image)
    requires
        source.wf(),
        rendered.wf(),
        stackable(source@, rendered@),
    ensures
        out.wf(),
        out@ == source@.stacked(rendered@),
{
    let mut canvas = source;
    let top = canvas.dimensions();
    let below = rendered.dimensions();
    let width = if top.width >= below.width {
        top.width
    } else {
        below.width
    };
    let old_dimensions = canvas.resize_canvas(Dimensions::new(width, top.height + below.height));
    canvas.draw_image(rendered, Dimensions::new(0, old_dimensions.height));
    canvas
}

} // verus!
