use vstd::prelude::*;

pub mod base_svole;
pub mod bytes;
pub mod crypto;
pub mod geometry;
pub mod cuckoo;
pub mod field;
pub mod lpn;
pub mod oprf_f2k;
pub mod oprf_fp;
pub mod origins;
pub mod sa_psi;
pub mod universe;
pub mod vole_triple;

verus! {

} // verus!
