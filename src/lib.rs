//! Text-level editing of one key in a JSON document with comments (JSONC):
//! the key's value is replaced, added or removed, and every other byte of the
//! document, comments and formatting included, is kept.

use vstd::prelude::*;

pub mod text;
pub mod scan;
pub mod locate;
pub mod format;
pub mod patch;
pub mod paths;
pub mod laws;
pub mod reread;
pub mod idempotence;
pub mod encoding;

verus! {

} // verus!
