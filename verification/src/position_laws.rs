//! Where samples go: a crop and a mirror image are made of samples of their source, each of the same channel,
//! from the places that the operations name.
use crate::crop::{cropped_value, rect_of};
use crate::flip::{axis_of, flipped_value};
use crate::ir::Rect;
use crate::json::Json;
use crate::lattice::{lemma_raster_sample, sample_at};
use crate::ports::port_view;
use crate::value::{ResourceValue, ValueView};
use vstd::prelude::*;

verus! {

/// A crop copies: pixel `(x, y)` of the result has, in every channel, the sample of the pixel as far from the
/// rectangle's upper left corner in the source, and the result has the rectangle's size.
pub proof fn law_crop_copies_pixels(
    inputs: Map<Seq<char>, ResourceValue>,
    params: Json,
    image: ValueView,
    rect: Rect,
    x: int,
    y: int,
    c: int,
)
    requires
        port_view(inputs, "image"@) == Some(image),
        cropped_value(inputs, params) is Ok,
        rect_of(params) is Ok,
        rect == rect_of(params)->Ok_0,
        0 <= x < rect.x1 - rect.x0,
        0 <= y < rect.y1 - rect.y0,
        0 <= c < image.channels,
    ensures
        ({
            let out = cropped_value(inputs, params)->Ok_0;
            &&& out.channels == image.channels
            &&& out.descriptor.extent().width == rect.x1 - rect.x0
            &&& out.descriptor.extent().height == rect.y1 - rect.y0
            &&& out.samples[sample_at(x, y, c, rect.x1 - rect.x0, image.channels as int)]
                == image.samples[sample_at(
                rect.x0 + x,
                rect.y0 + y,
                c,
                image.descriptor.extent().width as int,
                image.channels as int,
            )]
        }),
{
    let src = image.descriptor.extent();
    let channels = image.channels as int;
    lemma_raster_sample(
        rect.x1 - rect.x0,
        rect.y1 - rect.y0,
        channels,
        |x: int, y: int, ch: int|
            image.samples[sample_at(rect.x0 + x, rect.y0 + y, ch, src.width as int, channels)],
        x,
        y,
        c,
    );
}

/// The texts of the axes differ.
proof fn lemma_axis_texts()
    ensures
        "horizontal"@ != "vertical"@,
        "horizontal"@ != "both"@,
        "vertical"@ != "both"@,
{
    reveal_strlit("horizontal");
    reveal_strlit("vertical");
    reveal_strlit("both");
    assert("horizontal"@.len() == 10);
    assert("vertical"@.len() == 8);
    assert("both"@.len() == 4);
}

/// A flip mirrors: under `horizontal` and `both` column `x` of the result is the column as far from the other
/// side, under `vertical` and `both` row `y` is, and every sample stays in its channel.
pub proof fn law_flip_mirrors_pixels(
    inputs: Map<Seq<char>, ResourceValue>,
    params: Json,
    image: ValueView,
    axis: Json,
    x: int,
    y: int,
    c: int,
)
    requires
        port_view(inputs, "image"@) == Some(image),
        flipped_value(inputs, params) is Ok,
        params.get("axis"@) == Some(axis),
        0 <= x < image.descriptor.extent().width,
        0 <= y < image.descriptor.extent().height,
        0 <= c < image.channels,
    ensures
        ({
            let out = flipped_value(inputs, params)->Ok_0;
            let w = image.descriptor.extent().width as int;
            let h = image.descriptor.extent().height as int;
            let channels = image.channels as int;
            let text = axis.as_text();
            let found = out.samples[sample_at(x, y, c, w, channels)];
            &&& out.descriptor == image.descriptor
            &&& out.channels == image.channels
            &&& text == Some("horizontal"@) || text == Some("vertical"@) || text == Some("both"@)
            &&& text == Some("horizontal"@) ==> found == image.samples[sample_at(w - 1 - x, y, c, w, channels)]
            &&& text == Some("vertical"@) ==> found == image.samples[sample_at(x, h - 1 - y, c, w, channels)]
            &&& text == Some("both"@) ==> found == image.samples[sample_at(
                w - 1 - x,
                h - 1 - y,
                c,
                w,
                channels,
            )]
        }),
{
    lemma_axis_texts();
    let extent = image.descriptor.extent();
    let channels = image.channels as int;
    let turned = axis_of(params)->Ok_0;
    lemma_raster_sample(
        extent.width as int,
        extent.height as int,
        channels,
        |x: int, y: int, ch: int|
            image.samples[sample_at(
                turned.column(x, extent.width as int),
                turned.row(y, extent.height as int),
                ch,
                extent.width as int,
                channels,
            )],
        x,
        y,
        c,
    );
}

} // verus!
