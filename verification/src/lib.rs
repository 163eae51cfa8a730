//! Reference CPU operations on raster images, masks, fields and spectra.
pub mod arithmetic;
pub mod bell_rounding;
pub mod binary;
pub mod channel_laws;
pub mod content_laws;
pub mod convolve;
pub mod counting_laws;
pub mod crop;
pub mod dft;
pub mod diff;
pub mod diff_rounding;
pub mod domain_warp;
pub mod domains;
pub mod edge_laws;
pub mod edt;
pub mod edt_rounding;
pub mod ellipse;
pub mod ellipse_rounding;
pub mod energy_rounding;
pub mod exact;
pub mod feather_rounding;
pub mod fft;
pub mod fill;
pub mod fill_rounding;
pub mod flip;
pub mod fourier_laws;
pub mod fourier_rounding;
pub mod frequency;
pub mod frequency_energy;
pub mod frequency_preserved;
pub mod gaussian_blur;
pub mod gaussian_pyramid;
pub mod gradient;
pub mod gradient_rounding;
pub mod guided;
pub mod guided_laws;
pub mod guided_rounding;
pub mod inference_laws;
pub mod inspect;
pub mod ir;
pub mod json;
pub mod lattice;
pub mod light_laws;
pub mod light_rounding;
pub mod manifest;
pub mod manifests;
pub mod mask_laws;
pub mod operation_laws;
pub mod parameter_laws;
pub mod params;
pub mod pass_rounding;
pub mod planar;
pub mod ports;
pub mod position_laws;
pub mod pyramid_laws;
pub mod registry;
pub mod report;
pub mod rounding;
pub mod rounding_laws;
pub mod smoothing_laws;
pub mod smoothing_rounding;
pub mod turning_laws;
pub mod turning_rounding;
pub mod value;
pub mod warp_rounding;
pub mod wave_rounding;
