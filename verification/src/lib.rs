//! Minimal-change (Gray code) enumeration of combinatorial objects.
//!
//! Each generator family produces the sequence of elementary edit moves that
//! transforms every object of a given size into the next, visiting each object
//! exactly once.  Consumers apply the moves to their own representation of the
//! current object; the move stream itself is returned as a vector.

pub mod combin;
pub mod gray_code;
pub mod perm;
pub mod set_bipart;
pub mod set_partition;

pub use crate::combin::comb;
pub use crate::combin::emk_comb_gen;
pub use crate::combin::emk_gen_even;
pub use crate::combin::emk_gen_odd;
pub use crate::gray_code::brgc_gen;
pub use crate::perm::ehr_gen;
pub use crate::perm::factorial;
pub use crate::perm::sjt_gen;
pub use crate::set_bipart::set_bipart_gen;
pub use crate::set_bipart::stirling2nd2;
pub use crate::set_partition::set_partition_gen;
pub use crate::set_partition::stirling2nd;
