# paintop_cpu

Image operations for deterministic, checkable edits: correlation and Gaussian blur, guided filtering,
cropping and flipping, masked fills and gradients, ellipse masks, displacement warps, Fourier
transforms and pyramids, distance transforms, and reports on images.

`src/` is verified with Verus. Samples are handled by their IEEE 754 patterns; which numbers are
combined, and in which order, is proved, and the combining itself is handed in as an `Arithmetic`.
Every operation states in its contract what it gives for every input, and the laws of the operations
are public proof functions named `law_..`.

- `ir`, `value`, `ports`, `report`, `manifest`, `registry`: resources, reports and declarations
- `arithmetic`, `binary`, `json`, `params`, `lattice`: numbers, parameters and addressing
- one module per operation, with the shared transforms in `dft`, `edt` and `frequency`
- `manifests` and `domains`: what every operation declares, and its registration
- `exact`, `smoothing_laws`, `guided_laws`, `pyramid_laws`, `turning_laws`, `fourier_laws`: laws in an
  arithmetic that does not round
- `rounding`, `planar`, `rounding_laws`, `smoothing_rounding`, `turning_rounding`, `diff_rounding`,
  `guided_rounding`, `fourier_rounding`: laws in an arithmetic that rounds, with the patterns read as
  real numbers and the error of every result bounded

`app/` holds the floating-point arithmetic, the content hash, a runner, and refusals in words.
