//! The concurrent map that holds per-channel and per-connection state.

use vstd::prelude::*;

verus! {

/// `dashmap::DashMap`, a sharded concurrent hash map. Verus sees nothing inside a value of it;
/// what a map holds is named per use, next to the code that uses it.
#[verifier::external_type_specification]
#[verifier::external_body]
#[verifier::reject_recursive_types(K)]
#[verifier::reject_recursive_types(V)]
#[verifier::reject_recursive_types(S)]
pub struct ExDashMap<K, V, S>(dashmap::DashMap<K, V, S>);

} // verus!
