use crate::component::{Component, Hook};
use vstd::prelude::*;

verus! {

/// A component that draws: between `before_render` and `after_render` its
/// `render` hook runs.
pub trait Renderer: Component {
    fn render(&mut self, scene: &mut Self::Scene)
        ensures
            Self::effect(Hook::Render, *old(self), *old(scene), *final(self), *final(scene)),
    ;
}

} // verus!
