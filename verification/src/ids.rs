use vstd::prelude::*;

verus! {

/// Identity of an account in the surrounding platform: a participant, a
/// market, an asset or a vault.  The engine never interprets an identity; it
/// only stores identities and compares them for equality, so an opaque
/// numeric handle is all it needs.
pub type AccountId = u64;

} // verus!
