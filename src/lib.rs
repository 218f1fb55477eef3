use vstd::prelude::*;

pub mod bootimg;
pub mod bytes;
pub mod codec;
pub mod cpio;
pub mod deploy;
pub mod error;
pub mod locate;
pub mod patch;
pub mod plan;

verus! {

} // verus!
