//! What a masked fill does in an arithmetic that rounds: every channel of a pixel moves from the image's
//! sample towards the value's component of that channel, by the pixel's coverage.
use crate::arithmetic::{narrow_of, sample_minus_of, Arithmetic};
use crate::binary::{sample_finite, sample_rank, SAMPLE_ONE};
use crate::fill::{blended, fill_of, filled_value, lemma_painted_len};
use crate::ir::{ImageDescriptor, MaskDescriptor, ResourceDescriptor};
use crate::json::Json;
use crate::lattice::{at, lemma_at_bounds, lemma_at_inverse};
use crate::rounding::{
    lemma_product_order, lemma_product_sum, lemma_product_units, lemma_size_product, product, samples_compute,
    size, Reading,
};
use crate::value::{sample_count, ValueView};
use vstd::prelude::*;

verus! {

/// Both zeros stand for zero and the sample one for one.
pub open spec fn units_read(r: Reading) -> bool {
    &&& forall|s: u32| #[trigger] sample_rank(s) == 0 ==> (r.small)(s) == 0real
    &&& (r.small)(0x3f80_0000u32) == 1real
}

/// Painting blends: every channel of the output is, up to rounding, the image's sample moved by the pixel's
/// coverage towards the value's component for that channel.
pub proof fn law_fill_is_nearly_a_blend<A: Arithmetic>(
    r: Reading,
    image: ValueView,
    mask: ValueView,
    d: ImageDescriptor,
    m: MaskDescriptor,
    params: Json,
    pixel: int,
    ch: int,
)
    requires
        samples_compute::<A>(r),
        units_read(r),
        0real <= r.store,
        image.descriptor == ResourceDescriptor::Image(d),
        mask.descriptor == ResourceDescriptor::Mask(m),
        d.extent == m.extent,
        image.channels == d.layout.channel_count(),
        image.samples.len() == sample_count(image.descriptor, image.channels),
        mask.samples.len() == m.extent.area(),
        fill_of(params, d) is Ok,
        0 <= pixel < d.extent.area(),
        0 <= ch < image.channels,
        sample_finite(mask.samples[pixel]),
        0real <= (r.small)(mask.samples[pixel]) <= 1real,
        sample_finite(image.samples[at(ch, pixel, image.channels as int)]),
        sample_finite(narrow_of::<A>((fill_of(params, d)->Ok_0)[ch])),
        2real * (size((r.small)(image.samples[at(ch, pixel, image.channels as int)])) + size(
            (r.small)(narrow_of::<A>((fill_of(params, d)->Ok_0)[ch])),
        )) + r.store <= r.top,
    ensures
        filled_value::<A>(image, mask, params) is Ok,
        ({
            let base = (r.small)(image.samples[at(ch, pixel, image.channels as int)]);
            let value = (r.small)(narrow_of::<A>((fill_of(params, d)->Ok_0)[ch]));
            let coverage = (r.small)(mask.samples[pixel]);
            let out = filled_value::<A>(image, mask, params)->Ok_0.samples[at(
                ch,
                pixel,
                image.channels as int,
            )];
            &&& sample_finite(out)
            &&& size((r.small)(out) - (base + product(coverage, value - base))) <= 2real * r.store
        }),
{
    lemma_painted_len::<A>(image, mask, d, m, params);
    lemma_at_bounds(ch, pixel, image.channels as int, d.extent.area());
    lemma_at_inverse(ch, pixel, image.channels as int);
    let area = d.extent.area();
    let b = image.samples[at(ch, pixel, image.channels as int)];
    let v = narrow_of::<A>((fill_of(params, d)->Ok_0)[ch]);
    let c = mask.samples[pixel];
    let base = (r.small)(b);
    let value = (r.small)(v);
    let coverage = (r.small)(c);
    lemma_product_units(coverage, value - base);
    let out = filled_value::<A>(image, mask, params)->Ok_0.samples[at(ch, pixel, image.channels as int)];
    assert(out == blended::<A>(b, c, v));
    if sample_rank(c) == 0 {
        lemma_product_units(0real, value - base);
    } else if c == SAMPLE_ONE {
        lemma_product_units(1real, value - base);
    } else {
        reveal(samples_compute);
        let e = sample_minus_of::<A>(v, b);
        let we = (r.small)(e);
        lemma_product_sum(we, value - base, coverage);
        lemma_size_product(coverage, we - (value - base));
        lemma_product_order(size(we - (value - base)), coverage, 1real);
        lemma_product_units(size(we - (value - base)), 1real);
        lemma_product_units(size(we - (value - base)), coverage);
        lemma_size_product(coverage, we);
        lemma_product_order(size(we), coverage, 1real);
        lemma_product_units(size(we), 1real);
        lemma_product_units(size(we), coverage);
    }
}

} // verus!
