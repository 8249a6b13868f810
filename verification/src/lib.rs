//! A moving, tracing, copying garbage-collected arena.
//!
//! A [`Region`] owns a densely packed store of cells. Collection performs a
//! Cheney-style copy that relocates live objects into a fresh store and
//! rewrites every reference to them: the fast intra-region [`Ix`] indices
//! embedded in user values and exposed through the [`HasIx`] traversal
//! capability, and the stable external [`Root`] and [`Weak`] handles, which
//! observe an anchor record that the collector keeps current. A relocated
//! source cell becomes a broken heart carrying the destination index, so
//! each live object is copied exactly once and later edges to it are only
//! rewritten.

use vstd::prelude::*;

mod types;
mod entry;
mod has_ix;
mod region;
mod collect;
mod laws;
mod elem;

pub use collect::collected;
pub use collect::points_to;
pub use collect::reach_n;
pub use collect::reachable;
pub use collect::rewritten;
pub use collect::rooted;
pub use elem::Elem;
pub use entry::Entry;
pub use entry::Spot;
pub use has_ix::HasIx;
pub use laws::lemma_capacity_step;
pub use laws::lemma_gc_idempotent;
pub use laws::lemma_gc_idempotent_len;
pub use laws::lemma_handle_stability;
pub use laws::lemma_index_forwarding;
pub use laws::lemma_liveness_preserved;
pub use laws::lemma_no_roots_nothing_reachable;
pub use laws::lemma_post_gc_all_reachable;
pub use laws::lemma_reclamation;
pub use region::MutEntry;
pub use region::Region;
pub use types::Anchor;
pub use types::AnchorId;
pub use types::Error;
pub use types::Ix;
pub use types::Root;
pub use types::Space;
pub use types::Weak;

verus! {

} // verus!
