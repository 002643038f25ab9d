//! Cross-language dependency archaeology: the verified core.
//!
//! Every ecosystem adapter turns what it was given about one project
//! (the texts of its manifests, lockfiles and config files, the output of a
//! source parser) into a normalized [`model::Analysis`]; the engine cross-references
//! declared, installed and imported packages and walks the resolved tree.

pub mod text;
pub mod doc;
pub mod model;
pub mod engine;
pub mod report;
pub mod adapters;

use vstd::prelude::*;

verus! {

/// The one-character string literal `"\n"`.
pub proof fn lemma_newline()
    ensures
        "\n"@ == seq!['\n'],
{
    reveal_strlit("\n");
}

} // verus!
