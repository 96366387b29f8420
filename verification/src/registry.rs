use crate::component::{lemma_ran_one, lemma_ran_push, ran, Component, Hook};
use crate::entry::Entry;
use crate::identity::{Identity, OwnerRef};
use crate::renderer::Renderer;
use crate::sorting::{
    distinct, index_of, insert_pos, lemma_index_of, lemma_insert_pos, lemma_insert_pos_is,
    lemma_refreshed, lemma_remove, lemma_same_keys, lemma_sorted_insert_update,
    lemma_stable_sort_push, refresh, refreshed, registered, sorted, stable_sort,
};
use crate::transitions::{
    admitted, all_ran, detached, lemma_sorted_keeps, lemma_walked_by_one, removed, walked_along,
};
use std::collections::HashMap;
use vstd::prelude::*;

verus! {

broadcast use vstd::std_specs::hash::group_hash_axioms;

/// The index names every entry of the sequence, each at its place, and
/// nothing else.
pub open spec fn in_lock_step<C>(index: Map<Identity, int>, entries: Seq<Entry<C>>) -> bool {
    &&& forall|i: int|
        0 <= i < entries.len() ==> index.contains_key((#[trigger] entries[i]).identity)
            && index[entries[i].identity] == i
    &&& forall|id: Identity| #[trigger]
        index.contains_key(id) ==> 0 <= index[id] < entries.len() && entries[index[id]].identity
            == id
}

/// An index that is in lock step with a sequence is in lock step with every
/// sequence of the same identities at the same places.
pub proof fn lemma_lock_step_kept<C>(
    index: Map<Identity, int>,
    pre: Seq<Entry<C>>,
    post: Seq<Entry<C>>,
)
    requires
        in_lock_step(index, pre),
        post.len() == pre.len(),
        forall|i: int| 0 <= i < pre.len() ==> (#[trigger] post[i]).identity == pre[i].identity,
    ensures
        in_lock_step(index, post),
{
    assert forall|i: int| 0 <= i < post.len() implies index.contains_key(
        (#[trigger] post[i]).identity,
    ) && index[post[i].identity] == i by {
        assert(index.contains_key(pre[i].identity));
    }
    assert forall|id: Identity| #[trigger] index.contains_key(id) implies 0 <= index[id]
        < post.len() && post[index[id]].identity == id by {
        assert(pre[index[id]].identity == id);
    }
}

/// A registry of components, at most one per identity, in dispatch order.
///
/// The sequence is what hooks are dispatched along; the index finds a
/// component by its identity. `view` is the sequence.
pub struct OrderedRegistry<C> {
    index: HashMap<u64, usize>,
    sequence: Vec<Entry<C>>,
}

impl<C: Component> OrderedRegistry<C> {
    /// The entries in dispatch order.
    pub closed spec fn view(&self) -> Seq<Entry<C>> {
        self.sequence@
    }

    /// The place of each registered identity in the sequence.
    pub closed spec fn index(&self) -> Map<Identity, int> {
        Map::new(
            |id: Identity| self.index@.contains_key(id.value),
            |id: Identity| self.index@[id.value] as int,
        )
    }

    /// Identities are distinct, stored priorities ascend, and index and
    /// sequence hold the same entries.
    pub open spec fn well_formed(&self) -> bool {
        &&& distinct(self@)
        &&& sorted(self@)
        &&& in_lock_step(self.index(), self@)
    }

    /// A registry without components.
    pub fn new() -> (registry: Self)
        ensures
            registry.well_formed(),
            registry@.len() == 0,
    {
        OrderedRegistry { index: HashMap::new(), sequence: Vec::new() }
    }

    /// How many components are registered.
    pub fn len(&self) -> (len: usize)
        ensures
            len == self@.len(),
    {
        self.sequence.len()
    }

    /// Whether a component is registered under `id`.
    pub fn contains(&self, id: Identity) -> (found: bool)
        requires
            self.well_formed(),
        ensures
            found == registered(self@, id),
    {
        let found = self.index.contains_key(&id.value);
        proof {
            assert(found == self.index().contains_key(id));
            if registered(self@, id) {
                assert(self.index().contains_key(self@[index_of(self@, id)].identity));
            }
        }
        found
    }

    /// The component registered under `id`, if there is one. A hit in the
    /// index always passes the guarded cast.
    pub fn get(&self, id: Identity) -> (component: Option<&C>)
        requires
            self.well_formed(),
        ensures
            match component {
                Some(c) => registered(self@, id) && *c == self@[index_of(self@, id)].component,
                None => !registered(self@, id),
            },
    {
        match self.index.get(&id.value) {
            Some(place) => {
                proof {
                    assert(self.index().contains_key(id));
                    lemma_index_of(self@, *place as int);
                }
                self.sequence[*place].downcast_ref(id)
            },
            None => {
                proof {
                    assert(!self.index().contains_key(id));
                    if registered(self@, id) {
                        assert(self.index().contains_key(self@[index_of(self@, id)].identity));
                    }
                }
                None
            },
        }
    }

    /// Builds the index anew from the sequence.
    fn reindex(&mut self)
        requires
            distinct(old(self)@),
        ensures
            final(self)@ == old(self)@,
            in_lock_step(final(self).index(), final(self)@),
    {
        self.index.clear();
        let mut place: usize = 0;
        while place < self.sequence.len()
            invariant
                place <= self.sequence@.len(),
                self.sequence@ == old(self).sequence@,
                distinct(self.sequence@),
                forall|i: int|
                    0 <= i < place ==> self.index@.contains_key(
                        (#[trigger] self.sequence@[i]).identity.value,
                    ) && self.index@[self.sequence@[i].identity.value] == i,
                forall|key: u64| #[trigger]
                    self.index@.contains_key(key) ==> self.index@[key] < place
                        && self.sequence@[self.index@[key] as int].identity.value == key,
            decreases self.sequence@.len() - place,
        {
            let key = self.sequence[place].identity.value;
            self.index.insert(key, place);
            place += 1;
        }
    }

    /// The present priority of every component, in the order of the sequence.
    fn priorities(&self) -> (priorities: Vec<usize>)
        ensures
            priorities@.len() == self@.len(),
            forall|i: int|
                0 <= i < self@.len() ==> #[trigger] priorities@[i] == self@[i].component.order(),
    {
        let mut priorities: Vec<usize> = Vec::new();
        let mut next: usize = 0;
        while next < self.sequence.len()
            invariant
                next <= self.sequence@.len(),
                priorities@.len() == next,
                forall|i: int|
                    0 <= i < next ==> #[trigger] priorities@[i]
                        == self.sequence@[i].component.order(),
            decreases self.sequence@.len() - next,
        {
            priorities.push(self.sequence[next].component.get_order());
            next += 1;
        }
        priorities
    }

    /// Stores `priorities`, which were read from the components just before,
    /// and sorts the sequence by them, stably. No component is called here, so
    /// that index and sequence change together.
    fn resort(&mut self, priorities: Vec<usize>)
        requires
            distinct(old(self)@),
            priorities@.len() == old(self)@.len(),
            forall|i: int|
                0 <= i < old(self)@.len() ==> #[trigger] priorities@[i]
                    == old(self)@[i].component.order(),
        ensures
            final(self).well_formed(),
            final(self)@ == stable_sort(refreshed(old(self)@)),
    {
        let ghost before = self.sequence@;
        let mut pending: Vec<Entry<C>> = Vec::new();
        core::mem::swap(&mut pending, &mut self.sequence);
        let count = priorities.len();
        let mut done: usize = 0;
        for entry in it: pending
            invariant
                it.seq() == before,
                done == it.index(),
                count == before.len(),
                priorities@.len() == before.len(),
                forall|i: int|
                    0 <= i < before.len() ==> #[trigger] priorities@[i]
                        == before[i].component.order(),
                self.sequence@ == stable_sort(refreshed(before.take(done as int))),
        {
            let mut entry = entry;
            entry.order = priorities[done];
            let mut place: usize = self.sequence.len();
            while place > 0 && self.sequence[place - 1].order > entry.order
                invariant
                    place <= self.sequence@.len(),
                    forall|j: int|
                        place <= j < self.sequence@.len() ==> (#[trigger] self.sequence@[j]).order
                            > entry.order,
                decreases place,
            {
                place -= 1;
            }
            proof {
                let sofar = refreshed(before.take(done as int));
                let next = refreshed(before.take(done + 1));
                lemma_refreshed(before.take(done as int));
                lemma_refreshed(before.take(done + 1));
                assert(entry == refresh(before[done as int]));
                assert(next.drop_last() == sofar);
                assert(next.last() == entry);
                lemma_insert_pos_is(self.sequence@, entry.order, place as int);
            }
            self.sequence.insert(place, entry);
            done += 1;
        }
        proof {
            assert(before.take(before.len() as int) == before);
            lemma_sorted_keeps(before);
        }
        self.reindex();
    }

    /// Sorts the sequence by the components' present priorities; entries of
    /// one priority keep their order.
    pub fn sort(&mut self)
        requires
            old(self).well_formed(),
        ensures
            final(self).well_formed(),
            final(self)@ == stable_sort(refreshed(old(self)@)),
    {
        let priorities = self.priorities();
        self.resort(priorities);
    }

    /// Registers `component`, unless its identity is registered already.
    ///
    /// The component is given `owner` as its owner, each priority is read
    /// anew and the sequence sorted by it, and where `initialize` is set the
    /// `init` hook of the new component runs last, on `scene`. Where the
    /// identity is taken, nothing happens: the first component stays, and
    /// the one handed in comes back untouched.
    pub fn add(
        &mut self,
        component: C,
        owner: OwnerRef,
        initialize: bool,
        scene: &mut C::Scene,
    ) -> (rejected: Option<C>)
        requires
            old(self).well_formed(),
        ensures
            final(self).well_formed(),
            admitted(
                old(self)@,
                component,
                owner,
                initialize,
                *old(scene),
                final(self)@,
                *final(scene),
                rejected,
            ),
    {
        let id = component.get_id();
        if self.contains(id) {
            return Some(component);
        }
        let ghost before = self@;
        let ghost sorted_before = stable_sort(refreshed(before));
        let mut joined = component;
        joined.set_scene_renderer(Some(owner));
        let order = joined.get_order();
        let mut priorities = self.priorities();
        priorities.push(order);
        let ghost fresh = Entry { identity: id, order, component: joined };
        self.sequence.push(Entry { identity: id, order, component: joined });
        proof {
            assert forall|i: int, j: int| 0 <= i < j < self@.len() implies (
            #[trigger] self@[i]).identity != (#[trigger] self@[j]).identity by {
                if j < before.len() {
                    assert(before[i].identity != before[j].identity);
                } else {
                    assert(before[i].identity != id);
                }
            }
            lemma_stable_sort_push(before, fresh);
        }
        self.resort(priorities);
        let ghost place = insert_pos(sorted_before, order);
        proof {
            lemma_insert_pos(sorted_before, order);
            sorted_before.insert_ensures(place, fresh);
            lemma_index_of(self@, place);
        }
        if initialize {
            let ghost sorted_all = self@;
            match self.index.get(&id.value) {
                Some(found) => {
                    let found = *found;
                    assert(self.index().contains_key(id));
                    assert(found == place);
                    self.sequence[found].component.init(scene);
                },
                None => {
                    assert(self.index().contains_key(self@[place].identity));
                },
            }
            proof {
                lemma_same_keys(sorted_all, self@);
                lemma_lock_step_kept(self.index(), sorted_all, self@);
                lemma_index_of(self@, place);
                lemma_sorted_insert_update(sorted_before, fresh, self@[place]);
                assert(self@ == sorted_all.update(place, self@[place]));
            }
        }
        proof {
            let entry = self@[index_of(self@, id)];
            assert(C::assigned(Some(owner), component, joined) && joined.owner() == Some(owner)
                && entry.order == joined.order());
        }
        None
    }

    /// Takes out the component registered under `id`, if there is one: its
    /// `clear` hook runs, on `scene`, its owner reference is emptied, and the
    /// entry leaves index and sequence. The other entries keep their order.
    pub fn remove(&mut self, id: Identity, scene: &mut C::Scene) -> (component: Option<C>)
        requires
            old(self).well_formed(),
        ensures
            final(self).well_formed(),
            removed(old(self)@, id, *old(scene), final(self)@, *final(scene), component),
    {
        let place = match self.index.get(&id.value) {
            Some(place) => *place,
            None => {
                proof {
                    assert(!self.index().contains_key(id));
                    if registered(self@, id) {
                        assert(self.index().contains_key(self@[index_of(self@, id)].identity));
                    }
                }
                return None;
            },
        };
        let ghost before = self@;
        proof {
            assert(self.index().contains_key(id));
            lemma_index_of(before, place as int);
            lemma_remove(before, place as int);
        }
        self.sequence[place].component.clear(scene);
        let ghost clean = self@[place as int].component;
        self.sequence[place].component.set_scene_renderer(None);
        let entry = self.sequence.remove(place);
        proof {
            assert(C::effect(
                Hook::Clear,
                before[place as int].component,
                *old(scene),
                clean,
                *scene,
            ) && C::assigned(None, clean, entry.component));
            assert(self@ == before.remove(place as int));
        }
        self.reindex();
        Some(entry.component)
    }

    /// Runs one of the hooks `init`, `clear`, `before_render` and
    /// `after_render` on every component, first to last.
    fn dispatch(&mut self, hook: Hook, scene: &mut C::Scene)
        requires
            old(self).well_formed(),
            hook is Init || hook is Clear || hook is BeforeRender || hook is AfterRender,
        ensures
            final(self).well_formed(),
            all_ran(seq![hook], old(self)@, *old(scene), final(self)@, *final(scene)),
    {
        let ghost before = self.sequence@;
        let ghost mut scenes: Seq<C::Scene> = seq![*scene];
        let mut next: usize = 0;
        while next < self.sequence.len()
            invariant
                next <= self.sequence@.len(),
                self.sequence@.len() == before.len(),
                self.index == old(self).index,
                hook is Init || hook is Clear || hook is BeforeRender || hook is AfterRender,
                scenes.len() == next + 1,
                scenes[0] == *old(scene),
                scenes[next as int] == *scene,
                forall|i: int| next <= i < before.len() ==> self.sequence@[i] == before[i],
                forall|i: int|
                    0 <= i < next ==> {
                        &&& (#[trigger] self.sequence@[i]).identity == before[i].identity
                        &&& self.sequence@[i].order == before[i].order
                        &&& C::effect(
                            hook,
                            before[i].component,
                            scenes[i],
                            self.sequence@[i].component,
                            scenes[i + 1],
                        )
                    },
            decreases self.sequence@.len() - next,
        {
            match hook {
                Hook::Init => self.sequence[next].component.init(scene),
                Hook::Clear => self.sequence[next].component.clear(scene),
                Hook::BeforeRender => self.sequence[next].component.before_render(scene),
                Hook::AfterRender => self.sequence[next].component.after_render(scene),
                Hook::Render => {},
            }
            proof {
                scenes = scenes.push(*scene);
            }
            next += 1;
        }
        proof {
            lemma_walked_by_one(hook, before, self@, scenes);
            lemma_same_keys(before, self@);
            lemma_lock_step_kept(self.index(), before, self@);
        }
    }

    /// Runs the `init` hook of every component, first to last of the
    /// sequence, each on the scene as the one before left it.
    pub fn init_all(&mut self, scene: &mut C::Scene)
        requires
            old(self).well_formed(),
        ensures
            final(self).well_formed(),
            all_ran(seq![Hook::Init], old(self)@, *old(scene), final(self)@, *final(scene)),
    {
        self.dispatch(Hook::Init, scene);
    }

    /// Runs the `before_render` hook of every component, first to last of
    /// the sequence, each on the scene as the one before left it.
    pub fn before_render_all(&mut self, scene: &mut C::Scene)
        requires
            old(self).well_formed(),
        ensures
            final(self).well_formed(),
            all_ran(seq![Hook::BeforeRender], old(self)@, *old(scene), final(self)@, *final(scene)),
    {
        self.dispatch(Hook::BeforeRender, scene);
    }

    /// Runs the `after_render` hook of every component, first to last of the
    /// sequence, each on the scene as the one before left it.
    pub fn after_render_all(&mut self, scene: &mut C::Scene)
        requires
            old(self).well_formed(),
        ensures
            final(self).well_formed(),
            all_ran(seq![Hook::AfterRender], old(self)@, *old(scene), final(self)@, *final(scene)),
    {
        self.dispatch(Hook::AfterRender, scene);
    }

    /// Runs the `clear` hook of every component, first to last of the
    /// sequence, each on the scene as the one before left it. The components
    /// stay registered.
    pub fn clear_all(&mut self, scene: &mut C::Scene)
        requires
            old(self).well_formed(),
        ensures
            final(self).well_formed(),
            all_ran(seq![Hook::Clear], old(self)@, *old(scene), final(self)@, *final(scene)),
    {
        self.dispatch(Hook::Clear, scene);
    }

    /// Empties index and sequence and hands the components out, in dispatch
    /// order, each with its owner reference emptied. No hook runs.
    pub fn take_all(&mut self) -> (components: Vec<C>)
        requires
            old(self).well_formed(),
        ensures
            final(self).well_formed(),
            final(self)@.len() == 0,
            detached(old(self)@, components@),
    {
        let ghost before = self.sequence@;
        let mut next: usize = 0;
        while next < self.sequence.len()
            invariant
                next <= self.sequence@.len(),
                self.sequence@.len() == before.len(),
                forall|i: int| next <= i < before.len() ==> self.sequence@[i] == before[i],
                forall|i: int|
                    0 <= i < next ==> {
                        &&& (#[trigger] self.sequence@[i]).component.owner() == None::<OwnerRef>
                        &&& C::assigned(None, before[i].component, self.sequence@[i].component)
                    },
            decreases self.sequence@.len() - next,
        {
            self.sequence[next].component.set_scene_renderer(None);
            next += 1;
        }
        let ghost loose = self.sequence@;
        let mut pending: Vec<Entry<C>> = Vec::new();
        core::mem::swap(&mut pending, &mut self.sequence);
        self.index.clear();
        let mut components: Vec<C> = Vec::new();
        for entry in it: pending
            invariant
                it.seq() == loose,
                components@.len() == it.index(),
                forall|i: int|
                    0 <= i < components@.len() ==> #[trigger] components@[i] == loose[i].component,
        {
            components.push(entry.component);
        }
        proof {
            assert forall|i: int| 0 <= i < before.len() implies {
                &&& (#[trigger] components@[i]).owner() == None::<OwnerRef>
                &&& C::assigned(None, before[i].component, components@[i])
            } by {
                assert(loose[i].component == components@[i]);
            }
        }
        components
    }

    /// Calls `func` on every component and the scene, first to last of the
    /// sequence, each call on the scene as the one before left it.
    pub fn for_each<F: Fn(&mut C, &mut C::Scene)>(&mut self, func: F, scene: &mut C::Scene)
        requires
            old(self).well_formed(),
            forall|component: &mut C, on: &mut C::Scene| call_requires(func, (component, on)),
        ensures
            final(self).well_formed(),
            final(self)@.len() == old(self)@.len(),
            exists|scenes: Seq<C::Scene>|
                {
                    &&& #[trigger] scenes.len() == old(self)@.len() + 1
                    &&& scenes[0] == *old(scene)
                    &&& scenes[old(self)@.len() as int] == *final(scene)
                    &&& forall|i: int|
                        0 <= i < old(self)@.len() ==> {
                            &&& (#[trigger] final(self)@[i]).identity == old(self)@[i].identity
                            &&& final(self)@[i].order == old(self)@[i].order
                            &&& exists|component: &mut C, on: &mut C::Scene|
                                {
                                    &&& *component == old(self)@[i].component
                                    &&& *final(component) == final(self)@[i].component
                                    &&& *on == scenes[i]
                                    &&& *final(on) == scenes[i + 1]
                                    &&& #[trigger] call_ensures(func, (component, on), ())
                                }
                        }
                },
    {
        let ghost before = self.sequence@;
        let ghost mut scenes: Seq<C::Scene> = seq![*scene];
        let mut next: usize = 0;
        while next < self.sequence.len()
            invariant
                next <= self.sequence@.len(),
                self.sequence@.len() == before.len(),
                self.index == old(self).index,
                forall|component: &mut C, on: &mut C::Scene| call_requires(func, (component, on)),
                scenes.len() == next + 1,
                scenes[0] == *old(scene),
                scenes[next as int] == *scene,
                forall|i: int| next <= i < before.len() ==> self.sequence@[i] == before[i],
                forall|i: int|
                    0 <= i < next ==> {
                        &&& (#[trigger] self.sequence@[i]).identity == before[i].identity
                        &&& self.sequence@[i].order == before[i].order
                        &&& exists|component: &mut C, on: &mut C::Scene|
                            {
                                &&& *component == before[i].component
                                &&& *final(component) == self.sequence@[i].component
                                &&& *on == scenes[i]
                                &&& *final(on) == scenes[i + 1]
                                &&& #[trigger] call_ensures(func, (component, on), ())
                            }
                    },
            decreases self.sequence@.len() - next,
        {
            let ghost held = self.sequence@;
            let ghost prior = scenes;
            func(&mut self.sequence[next].component, scene);
            proof {
                scenes = scenes.push(*scene);
                assert forall|i: int| 0 <= i <= next implies {
                    &&& (#[trigger] self.sequence@[i]).identity == before[i].identity
                    &&& self.sequence@[i].order == before[i].order
                    &&& exists|component: &mut C, on: &mut C::Scene|
                        {
                            &&& *component == before[i].component
                            &&& *final(component) == self.sequence@[i].component
                            &&& *on == scenes[i]
                            &&& *final(on) == scenes[i + 1]
                            &&& #[trigger] call_ensures(func, (component, on), ())
                        }
                } by {
                    if i < next {
                        assert(held[i] == self.sequence@[i]);
                        assert(prior[i] == scenes[i]);
                        assert(prior[i + 1] == scenes[i + 1]);
                    }
                }
            }
            next += 1;
        }
        proof {
            lemma_same_keys(before, self@);
            lemma_lock_step_kept(self.index(), before, self@);
            assert(scenes.len() == before.len() + 1);
        }
    }
}

impl<R: Renderer> OrderedRegistry<R> {
    /// Drives every renderer, first to last of the sequence: its
    /// `before_render`, its `render` and its `after_render` hook run before
    /// the next renderer's, each hook on the scene as the one before left it.
    pub fn render_all(&mut self, scene: &mut R::Scene)
        requires
            old(self).well_formed(),
        ensures
            final(self).well_formed(),
            all_ran(
                seq![Hook::BeforeRender, Hook::Render, Hook::AfterRender],
                old(self)@,
                *old(scene),
                final(self)@,
                *final(scene),
            ),
    {
        let ghost hooks = seq![Hook::BeforeRender, Hook::Render, Hook::AfterRender];
        let ghost before = self.sequence@;
        let ghost mut scenes: Seq<R::Scene> = seq![*scene];
        let mut next: usize = 0;
        while next < self.sequence.len()
            invariant
                hooks == seq![Hook::BeforeRender, Hook::Render, Hook::AfterRender],
                next <= self.sequence@.len(),
                self.sequence@.len() == before.len(),
                self.index == old(self).index,
                scenes.len() == next + 1,
                scenes[0] == *old(scene),
                scenes[next as int] == *scene,
                forall|i: int| next <= i < before.len() ==> self.sequence@[i] == before[i],
                forall|i: int|
                    0 <= i < next ==> {
                        &&& (#[trigger] self.sequence@[i]).identity == before[i].identity
                        &&& self.sequence@[i].order == before[i].order
                        &&& ran(
                            hooks,
                            before[i].component,
                            scenes[i],
                            self.sequence@[i].component,
                            scenes[i + 1],
                        )
                    },
            decreases self.sequence@.len() - next,
        {
            let ghost idle = before[next as int].component;
            let ghost first = *scene;
            self.sequence[next].component.before_render(scene);
            let ghost ready = self.sequence@[next as int].component;
            let ghost second = *scene;
            self.sequence[next].component.render(scene);
            let ghost drawn = self.sequence@[next as int].component;
            let ghost third = *scene;
            self.sequence[next].component.after_render(scene);
            proof {
                let done = self.sequence@[next as int].component;
                lemma_ran_one(Hook::BeforeRender, idle, first, ready, second);
                lemma_ran_push(
                    seq![Hook::BeforeRender],
                    idle,
                    first,
                    ready,
                    second,
                    Hook::Render,
                    drawn,
                    third,
                );
                lemma_ran_push(
                    seq![Hook::BeforeRender].push(Hook::Render),
                    idle,
                    first,
                    drawn,
                    third,
                    Hook::AfterRender,
                    done,
                    *scene,
                );
                assert(seq![Hook::BeforeRender].push(Hook::Render).push(Hook::AfterRender)
                    == hooks);
                scenes = scenes.push(*scene);
            }
            next += 1;
        }
        proof {
            assert(walked_along(hooks, before, self@, scenes));
            lemma_same_keys(before, self@);
            lemma_lock_step_kept(self.index(), before, self@);
        }
    }
}

} // verus!
