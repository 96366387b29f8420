use vstd::prelude::*;

verus! {

/// The key of a component's concrete type.
///
/// Every instance of one concrete type carries the same identity, and two
/// different types never share one. A registry holds at most one component per
/// identity and finds components by it; an identity never stands for ownership.
#[derive(Clone, Copy, Debug, PartialEq, Eq, Structural, PartialOrd, Ord, Hash)]
pub struct Identity {
    pub value: u64,
}

/// A non-owning reference to a scene renderer, as a component keeps it.
///
/// The registry owns its components; a component only names its owner, so that
/// no ownership cycle arises and the reference can never dangle.
#[derive(Clone, Copy, Debug, PartialEq, Eq, Structural, Hash)]
pub struct OwnerRef {
    pub id: u64,
}

} // verus!
