//! Resources with their samples.
use crate::ir::{
    child_extent, lemma_pyramid_len_grows, level_extent, plane_count, pyramid_len, Extent,
    PyramidDescriptor, ResourceDescriptor,
};
use vstd::prelude::*;

verus! {

/// The number of samples that a resource with `channels` channels holds.
pub open spec fn sample_count(descriptor: ResourceDescriptor, channels: u32) -> int {
    match descriptor {
        ResourceDescriptor::Spectrum(d) => d.extent.area() * channels * 2,
        ResourceDescriptor::Pyramid(d) => pyramid_len(
            d.base_extent,
            d.phase,
            channels,
            d.levels as nat,
        ),
        _ => descriptor.extent().area() * channels,
    }
}

/// A resource: what it is, its channel count, and its samples by their binary32 patterns, row by
/// row and channel-interleaved. The samples are as many as the rest says.
#[derive(Debug, PartialEq, Eq)]
pub struct ResourceValue {
    descriptor: ResourceDescriptor,
    channels: u32,
    samples: Vec<u32>,
}

/// What a resource is.
pub ghost struct ValueView {
    pub descriptor: ResourceDescriptor,
    pub channels: u32,
    pub samples: Seq<u32>,
}

impl View for ResourceValue {
    type V = ValueView;

    closed spec fn view(&self) -> ValueView {
        ValueView {
            descriptor: self.descriptor,
            channels: self.channels,
            samples: self.samples@,
        }
    }
}

impl Clone for ResourceValue {
    fn clone(&self) -> (r: Self)
        ensures
            r@ == self@,
    {
        proof {
            use_type_invariant(self);
        }
        let samples: Vec<u32> = self.samples.clone();
        ResourceValue { descriptor: self.descriptor, channels: self.channels, samples }
    }
}

impl ResourceValue {
    #[verifier::type_invariant]
    closed spec fn filled(self) -> bool {
        self.samples@.len() == sample_count(self.descriptor, self.channels)
    }

    /// A resource of the given samples; refused, with their number, unless they are as many as the
    /// descriptor and the channels say.
    pub fn new(descriptor: ResourceDescriptor, channels: u32, samples: Vec<u32>) -> (r: Result<
        Self,
        usize,
    >)
        ensures
            r is Ok <==> samples@.len() == sample_count(descriptor, channels),
            r matches Ok(v) ==> v@ == (ValueView { descriptor, channels, samples: samples@ }),
            r matches Err(actual) ==> actual == samples@.len(),
    {
        if count_is(descriptor, channels, samples.len()) {
            Ok(ResourceValue { descriptor, channels, samples })
        } else {
            Err(samples.len())
        }
    }

    /// What the resource is.
    pub fn descriptor(&self) -> (r: ResourceDescriptor)
        ensures
            r == self@.descriptor,
    {
        self.descriptor
    }

    /// The resource's size.
    pub fn extent(&self) -> (r: Extent)
        ensures
            r == self@.descriptor.extent(),
    {
        self.descriptor.extent()
    }

    /// The number of interleaved channels.
    pub fn channels(&self) -> (r: u32)
        ensures
            r == self@.channels,
    {
        self.channels
    }

    /// The samples.
    pub fn samples(&self) -> (r: &Vec<u32>)
        ensures
            r@ == self@.samples,
            r@.len() == sample_count(self@.descriptor, self@.channels),
    {
        proof {
            use_type_invariant(self);
        }
        &self.samples
    }

    /// The samples of one level of a pyramid, level zero being the finest; none of a level that the
    /// pyramid lacks, and none of any other resource.
    pub fn pyramid_level(&self, level: u32) -> (r: Option<Vec<u32>>)
        ensures
            match (r, self@.level(level as int)) {
                (Some(samples), Some(expected)) => samples@ == expected,
                (None, None) => true,
                _ => false,
            },
    {
        proof {
            use_type_invariant(self);
        }
        match self.descriptor {
            ResourceDescriptor::Pyramid(d) => if level < d.levels {
                let held: usize = self.samples.len();
                let start: usize = pyramid_offset(d, self.channels, level, held);
                let end: usize = pyramid_offset(d, self.channels, level + 1, held);
                let mut samples: Vec<u32> = Vec::new();
                proof {
                    lemma_pyramid_len_grows(
                        d.base_extent,
                        d.phase,
                        self.channels,
                        level as nat,
                        (level + 1) as nat,
                    );
                    lemma_pyramid_len_grows(
                        d.base_extent,
                        d.phase,
                        self.channels,
                        (level + 1) as nat,
                        d.levels as nat,
                    );
                }
                let mut i: usize = start;
                while i < end
                    invariant
                        start <= i <= end <= self.samples@.len(),
                        samples@ == self.samples@.subrange(start as int, i as int),
                    decreases end - i,
                {
                    samples.push(self.samples[i]);
                    i = i + 1;
                }
                Some(samples)
            } else {
                None
            },
            _ => None,
        }
    }
}

impl ValueView {
    /// The samples of one level of a pyramid.
    pub open spec fn level(self, l: int) -> Option<Seq<u32>> {
        match self.descriptor {
            ResourceDescriptor::Pyramid(d) => if 0 <= l < d.levels {
                Some(
                    self.samples.subrange(
                        pyramid_len(d.base_extent, d.phase, self.channels, l as nat),
                        pyramid_len(d.base_extent, d.phase, self.channels, (l + 1) as nat),
                    ),
                )
            } else {
                None
            },
            _ => None,
        }
    }
}

/// Where a level of a pyramid starts, in a buffer known to hold what precedes it.
fn pyramid_offset(d: PyramidDescriptor, channels: u32, level: u32, held: usize) -> (r: usize)
    requires
        level <= d.levels,
        pyramid_len(d.base_extent, d.phase, channels, d.levels as nat) == held,
    ensures
        r == pyramid_len(d.base_extent, d.phase, channels, level as nat),
{
    let mut extent: Extent = d.base_extent;
    let mut total: u128 = 0;
    let mut l: u32 = 0;
    proof {
        lemma_pyramid_len_grows(d.base_extent, d.phase, channels, 0, d.levels as nat);
    }
    while l < level
        invariant
            l <= level <= d.levels,
            extent == level_extent(d.base_extent, d.phase, l as nat),
            total == pyramid_len(d.base_extent, d.phase, channels, l as nat),
            total <= held,
            pyramid_len(d.base_extent, d.phase, channels, d.levels as nat) == held,
        decreases level - l,
    {
        total = total + plane_count(extent, channels);
        extent = child_extent(extent, d.phase);
        l = l + 1;
        proof {
            lemma_pyramid_len_grows(d.base_extent, d.phase, channels, l as nat, d.levels as nat);
        }
    }
    total as usize
}

/// Whether `len` samples are as many as a resource holds.
fn count_is(descriptor: ResourceDescriptor, channels: u32, len: usize) -> (r: bool)
    ensures
        r == (len == sample_count(descriptor, channels)),
{
    match descriptor {
        ResourceDescriptor::Spectrum(d) => {
            let plane: u128 = plane_count(d.extent, channels);
            len as u128 == plane * 2
        },
        ResourceDescriptor::Pyramid(d) => pyramid_count_is(d, channels, len),
        _ => len as u128 == plane_count(descriptor.extent(), channels),
    }
}

/// Whether `len` samples fill a pyramid.
fn pyramid_count_is(d: PyramidDescriptor, channels: u32, len: usize) -> (r: bool)
    ensures
        r == (len == pyramid_len(d.base_extent, d.phase, channels, d.levels as nat)),
{
    let mut extent: Extent = d.base_extent;
    let mut total: u128 = 0;
    let mut l: u32 = 0;
    while l < d.levels
        invariant
            l <= d.levels,
            extent == level_extent(d.base_extent, d.phase, l as nat),
            total == pyramid_len(d.base_extent, d.phase, channels, l as nat),
            total <= len,
        decreases d.levels - l,
    {
        total = total + plane_count(extent, channels);
        extent = child_extent(extent, d.phase);
        l = l + 1;
        if total > len as u128 {
            proof {
                lemma_pyramid_len_grows(d.base_extent, d.phase, channels, l as nat, d.levels as nat);
            }
            return false;
        }
    }
    len as u128 == total
}

} // verus!
