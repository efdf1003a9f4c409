//! An interactive client library that mirrors a remote hierarchical
//! key-value parameter service into a local, optionally encrypted,
//! file-backed cache, and offers path-prefix completion over the
//! mirrored hierarchy.

use vstd::prelude::*;

pub mod assoc;
pub mod command;
pub mod completion;
pub mod encryptor;
pub mod path_index;
pub mod record_store;
pub mod strutil;
pub mod sync;
pub mod value_map;

verus! {

/// The root path, as a sequence of characters: the path delimiter alone.
pub open spec fn root_path() -> Seq<char> {
    seq!['/']
}

} // verus!
