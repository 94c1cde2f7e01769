//! Ring-LWE encryption over `Z_q[x] / (x^n + 1)`, with homomorphic addition and
//! multiplication of ciphertexts.

pub mod rlwe;
pub mod rq;
pub mod sampler;
