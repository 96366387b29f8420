use crate::component::Component;
use vstd::prelude::*;

verus! {

/// A component that brackets the renderers: its `before_render` hook runs
/// before any renderer is driven, its `after_render` hook after all of them.
pub trait Plugin: Component {

}

} // verus!
