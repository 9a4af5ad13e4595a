//! In-place radix-2 fast Fourier transforms for buffers whose length is a
//! power of two from 1 to 32768.
//!
//! The engines are generic over the sample type: they reorder samples and
//! run the butterfly schedule, reading twiddle factors out of a quarter-wave
//! sine table, and hand the arithmetic of each step to a closure of the
//! caller. Four transforms are built this way:
//!  * [`cfft`]: the forward transform of complex samples;
//!  * [`ifft`]: the inverse transform, through the forward one;
//!  * [`real_input`]: the forward transform of real samples through a complex
//!    transform of half the size, and its inverse.
//!
//! [`bitrev`] holds the bit-reversal permutation and [`twiddle`] the table
//! addressing.

pub mod bitrev;
pub mod twiddle;
pub mod cfft;
pub mod ifft;
pub mod real_input;
