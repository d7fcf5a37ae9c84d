//! Progressive accumulation of escaping orbits into a hit-count histogram,
//! and log-style tone mapping of that histogram into a grayscale RGBA image.
//!
//! The floating-point parts of the pipeline (the recurrence step, the
//! projection of plane points onto pixels, the tone curve and the random
//! sampler) are supplied by the caller as closures; everything that decides
//! what is kept, where it is written and how counters evolve is verified here.
//!
//! `goldbach` holds the integer side of the Goldbach comet plot: a prime
//! sieve and the count of prime pairs of each even number.
pub mod histogram;
pub mod orbit;
pub mod tone;
pub mod canvas;
pub mod goldbach;
