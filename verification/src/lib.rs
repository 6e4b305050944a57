//! A single-writer-many-reader safe-memory-reclamation scheme in the style
//! of Hyaline, together with the lock-free sorted bucket map that exercises
//! it. Shared-memory steps (loads, stores, compare-and-swap) are modelled as
//! atomic state transitions on plain values, so that every protocol decision
//! - head-word packing, retirement reference counts, sorted splicing - is
//! stated in a contract and proved.

pub mod cptr;
pub mod hyaline;
pub mod link_list;

pub use cptr::CPtr;
pub use cptr::CPtrLocal;
pub use cptr::Padded;
pub use cptr::PaddedAtomic;
pub use cptr::VolatilePadded;
pub use link_list::SortedUnorderedMap;
