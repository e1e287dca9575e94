//! A hybrid random number engine: a Mersenne Twister and a ChaCha20 stream
//! generator, combined by XOR with a sample of host entropy, together with
//! the bounded draws built on them.

pub mod bench;
pub mod cipher;
pub mod dyadic;
pub mod mt;
pub mod rng;
pub mod sampler;
pub mod seed;
