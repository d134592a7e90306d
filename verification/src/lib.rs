//! Reconstruction of a non-negative 2-D image from its row sums and column
//! sums alone: a uniform back projection gives a first estimate, and
//! repeated sweeps spread what each row and each column still lacks of its
//! target over its cells.
//!
//! Numbers are unsigned fixed-point: a stored `u64` counts 65536ths of a
//! unit ([`image::ONE`] stands for one unit), arithmetic is exact integer
//! arithmetic, and quotients are truncated towards zero. Every cell of an
//! image stays within a limit that depends on its shape, so that no sum of
//! a row or of a column leaves the range of `u64`.
//!
//! * [`sums`]: sums, projections and mass of grids of integers, in which all
//!   contracts are stated.
//! * [`matrix`]: the storage, a `nalgebra` matrix, with the contracts that
//!   are assumed of `nalgebra`.
//! * [`image`]: the image and its projections.
//! * [`inferrer`]: back projection and sweeps.
//! * [`laws`]: what holds of every image and every estimate.
//! * [`sample`]: sample images, fixed and random.
pub mod image;
pub mod inferrer;
pub mod laws;
pub mod matrix;
pub mod sample;
pub mod sums;
