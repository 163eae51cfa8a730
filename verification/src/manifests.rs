//! The manifests of the operations.
pub mod convolve;
pub mod crop;
pub mod diff;
pub mod domain_warp;
pub mod ellipse_mask;
pub mod fft2;
pub mod fill;
pub mod flip;
pub mod frequency_energy;
pub mod frequency_preserved;
pub mod gaussian_blur;
pub mod gaussian_pyramid;
pub mod guided;
pub mod ifft2;
pub mod inspect;
pub mod linear_gradient;
pub mod radial_gradient;
