//! A typed component registry with ordered lifecycle dispatch.
//!
//! Renderers and plugins are attached to a scene renderer, at most one per
//! identity, and driven through the lifecycle phases in ascending priority.
//!
//! - `identity`: the key of a component's type, and the reference a component
//!   keeps to its owner.
//! - `component`, `renderer`, `plugin`: what a component offers, and what it
//!   means that hooks ran on it.
//! - `entry`: a component as it is stored, reached through a guarded cast.
//! - `sorting`: sequences of entries, and what sorting them stably means.
//! - `transitions`: what adding, removing and dispatching make of a
//!   sequence, and the laws that hold of it.
//! - `registry`: the registry of one kind of component.
//! - `scene_renderer`: the owner of a registry of renderers and one of
//!   plugins, and its lifecycle.
//!
//! Every function that changes a registry or a scene renderer states what
//! it makes of the state before, over the sequence of entries and the scene.
//! Every hook is handed the scene, and each one works on the scene as the
//! hook before it left it. So a contract says more than which hooks ran on
//! which component: it says in which order they ran, over all components. What
//! a hook does to its component and to the scene is the component's own
//! business, stated by `Component::effect`.

pub mod component;
pub mod entry;
pub mod identity;
pub mod plugin;
pub mod registry;
pub mod renderer;
pub mod scene_renderer;
pub mod sorting;
pub mod transitions;

pub use component::{Component, Hook};
pub use entry::Entry;
pub use identity::{Identity, OwnerRef};
pub use plugin::Plugin;
pub use registry::OrderedRegistry;
pub use renderer::Renderer;
pub use scene_renderer::{SceneRenderer, SceneRendererView};
