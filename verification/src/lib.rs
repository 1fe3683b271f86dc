//! Discrete Fourier transforms of sampled signals, with their structure
//! proved.
//!
//! There are two transforms.  The direct one adds up every bin as it is
//! defined.  The fast one is the radix-2 algorithm, decimation in time, for
//! lengths that are powers of two.  Both leave the arithmetic on values to a
//! kernel that the caller hands in, so that they run on rounded numbers as
//! well as on exact ones.  Everything around that arithmetic is verified:
//! which samples meet, in which order, and by which unit root each one is
//! rotated.
//!
//! - [`transforms`] holds the two transforms.
//! - [`twiddle`] holds the unit roots, as exact fractions of a full turn.
//! - [`plan`] holds butterfly plans and their meaning in exact arithmetic,
//!   [`terms`] the exact sums that the meaning is stated over.
//! - [`radix2`] defines the radix-2 plan and proves that it computes every
//!   bin, with [`bit_reversal`] for the order in which it loads the samples.
//! - [`execution`] says what it means to run a plan with a given kernel.
//! - [`laws`] states what follows for kernels that are exact, or that leave
//!   zero alone.

pub mod bit_reversal;
pub mod execution;
pub mod laws;
pub mod plan;
pub mod power_of_two;
pub mod radix2;
pub mod terms;
pub mod transforms;
pub mod twiddle;
