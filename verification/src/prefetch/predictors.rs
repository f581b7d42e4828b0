use vstd::prelude::*;

verus! {

/// Ranks the extensions of a node by their position: earlier ones are needed sooner.
pub struct DfsPredictor;

/// Ranks pages by expected benefit: access probability times utility over load cost.
pub struct UtilityPredictor;

} // verus!
