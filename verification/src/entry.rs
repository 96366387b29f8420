use crate::component::Component;
use crate::identity::Identity;
use vstd::prelude::*;

verus! {

/// A component as a registry stores it: without its concrete type, beside the
/// identity it was registered under and the priority last read from it.
///
/// The component is reached again only through a cast that is guarded by the
/// stored identity.
pub struct Entry<C> {
    pub identity: Identity,
    pub order: usize,
    pub component: C,
}

impl<C: Component> Entry<C> {
    /// Stores `component` under its own identity and priority.
    pub fn new(component: C) -> (entry: Self)
        ensures
            entry.identity == component.identity(),
            entry.order == component.order(),
            entry.component == component,
    {
        let identity = component.get_id();
        let order = component.get_order();
        Entry { identity, order, component }
    }

    /// Whether the stored component is of the type that `id` stands for.
    pub fn is(&self, id: Identity) -> (same: bool)
        ensures
            same == (self.identity == id),
    {
        self.identity == id
    }

    /// The component, if it is of the type that `id` stands for. A cast to any
    /// other type is empty; it is no error.
    pub fn downcast_ref(&self, id: Identity) -> (component: Option<&C>)
        ensures
            component == if self.identity == id {
                Some(&self.component)
            } else {
                None
            },
    {
        if self.is(id) {
            Some(&self.component)
        } else {
            None
        }
    }

    /// As `downcast_ref`, for changing the component in place. Identity and
    /// stored priority stay as they are.
    pub fn downcast_mut(&mut self, id: Identity) -> (component: Option<&mut C>)
        ensures
            old(self).identity == id ==> component is Some && *component->0 == old(self).component
                && *final(self) == (Entry {
                identity: old(self).identity,
                order: old(self).order,
                component: *final(component->0),
            }),
            old(self).identity != id ==> component is None && *final(self) == *old(self),
    {
        if self.identity == id {
            Some(&mut self.component)
        } else {
            None
        }
    }
}

} // verus!
