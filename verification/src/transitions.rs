use crate::component::{lemma_ran_one, ran, Component, Hook};
use crate::entry::Entry;
use crate::identity::{Identity, OwnerRef};
use crate::sorting::{
    distinct, index_of, insert_pos, lemma_insert_pos, lemma_refreshed, lemma_remove,
    lemma_same_keys, lemma_sorted_insert_distinct, lemma_sorted_insert_registered,
    lemma_sorted_insert_sorted, lemma_sorted_insert_ties, lemma_stable_sort_distinct,
    lemma_stable_sort_keeps_ties, lemma_stable_sort_permutes, lemma_stable_sort_registered,
    lemma_stable_sort_sorted, of_order, refreshed, registered, sorted, sorted_insert, stable_sort,
};
use vstd::prelude::*;

verus! {

/// `entry` holds `component` as it is once it was given `owner` and, where
/// `initialize` is set, its `init` hook ran after that, on the scene `before`,
/// and left `after`. The stored priority is the one the component had in
/// between. Without `initialize` the scene is left alone.
pub open spec fn attached<C: Component>(
    component: C,
    owner: OwnerRef,
    initialize: bool,
    before: C::Scene,
    entry: Entry<C>,
    after: C::Scene,
) -> bool {
    &&& entry.identity == component.identity()
    &&& exists|joined: C|
        {
            &&& #[trigger] C::assigned(Some(owner), component, joined)
            &&& joined.owner() == Some(owner)
            &&& entry.order == joined.order()
            &&& if initialize {
                C::effect(Hook::Init, joined, before, entry.component, after)
            } else {
                entry.component == joined && after == before
            }
        }
}

/// What adding `component` makes of the sequence `pre` and the scene
/// `before`. Where the component's identity is registered already, nothing:
/// sequence and scene stay, and the component comes back as `rejected`, as it
/// was handed in. Else nothing comes back, and `post` holds the entries of
/// `pre` sorted anew by their present priorities, with the new entry behind
/// those of the same or a lower priority.
pub open spec fn admitted<C: Component>(
    pre: Seq<Entry<C>>,
    component: C,
    owner: OwnerRef,
    initialize: bool,
    before: C::Scene,
    post: Seq<Entry<C>>,
    after: C::Scene,
    rejected: Option<C>,
) -> bool {
    if registered(pre, component.identity()) {
        &&& post == pre
        &&& after == before
        &&& rejected == Some(component)
    } else {
        &&& rejected is None
        &&& registered(post, component.identity())
        &&& attached(
            component,
            owner,
            initialize,
            before,
            post[index_of(post, component.identity())],
            after,
        )
        &&& post == sorted_insert(
            stable_sort(refreshed(pre)),
            post[index_of(post, component.identity())],
        )
    }
}

/// `component` is `held` after its `clear` hook ran, on the scene `before`
/// with `after` left, and its owner reference was emptied after that.
pub open spec fn released<C: Component>(
    held: C,
    before: C::Scene,
    component: C,
    after: C::Scene,
) -> bool {
    &&& component.owner() == None::<OwnerRef>
    &&& exists|clean: C|
        C::effect(Hook::Clear, held, before, clean, after) && #[trigger] C::assigned(
            None,
            clean,
            component,
        )
}

/// What removing the entry registered under `id` makes of `pre` and
/// `before`: the entry leaves, and `component` is what it held, released.
/// Where nothing is registered under `id`, nothing changes and nothing comes
/// out.
pub open spec fn removed<C: Component>(
    pre: Seq<Entry<C>>,
    id: Identity,
    before: C::Scene,
    post: Seq<Entry<C>>,
    after: C::Scene,
    component: Option<C>,
) -> bool {
    if registered(pre, id) {
        &&& post == pre.remove(index_of(pre, id))
        &&& component is Some
        &&& released(pre[index_of(pre, id)].component, before, component->0, after)
    } else {
        post == pre && after == before && component is None
    }
}

/// The sequence was walked first to last along the scenes of `scenes`: the
/// hooks of `hooks` ran on the component of entry `i`, beginning on scene `i`
/// and leaving scene `i + 1`. Every entry stands where it stood, under its
/// identity and stored priority.
pub open spec fn walked_along<C: Component>(
    hooks: Seq<Hook>,
    pre: Seq<Entry<C>>,
    post: Seq<Entry<C>>,
    scenes: Seq<C::Scene>,
) -> bool {
    &&& post.len() == pre.len()
    &&& scenes.len() == pre.len() + 1
    &&& forall|i: int|
        0 <= i < pre.len() ==> {
            &&& (#[trigger] post[i]).identity == pre[i].identity
            &&& post[i].order == pre[i].order
            &&& ran(hooks, pre[i].component, scenes[i], post[i].component, scenes[i + 1])
        }
}

/// The hooks of `hooks` ran on every component, entry by entry from the
/// first of the sequence to the last, each entry beginning on the scene that
/// the entry before it left: the walk began on `before` and left `after`.
pub open spec fn all_ran<C: Component>(
    hooks: Seq<Hook>,
    pre: Seq<Entry<C>>,
    before: C::Scene,
    post: Seq<Entry<C>>,
    after: C::Scene,
) -> bool {
    exists|scenes: Seq<C::Scene>|
        {
            &&& #[trigger] walked_along(hooks, pre, post, scenes)
            &&& scenes[0] == before
            &&& scenes[pre.len() as int] == after
        }
}

/// `components` are the components of `pre`, in its order, each with its
/// owner reference emptied.
pub open spec fn detached<C: Component>(pre: Seq<Entry<C>>, components: Seq<C>) -> bool {
    &&& components.len() == pre.len()
    &&& forall|i: int|
        0 <= i < pre.len() ==> {
            &&& (#[trigger] components[i]).owner() == None::<OwnerRef>
            &&& C::assigned(None, pre[i].component, components[i])
        }
}

/// `components` are the components of `pre`, in its order: the `clear` hooks
/// ran along the sequence, first to last, from the scene `before` to `after`,
/// and the owner references were emptied after that.
pub open spec fn cleared<C: Component>(
    pre: Seq<Entry<C>>,
    before: C::Scene,
    components: Seq<C>,
    after: C::Scene,
) -> bool {
    exists|clean: Seq<Entry<C>>|
        #[trigger] all_ran(seq![Hook::Clear], pre, before, clean, after) && detached(
            clean,
            components,
        )
}

/// After a component was added, its identity is registered; where it was
/// not before, what is found under it is the component that was handed in,
/// with its owner set, and every other entry is still registered.
pub proof fn lemma_added_is_found<C: Component>(
    pre: Seq<Entry<C>>,
    component: C,
    owner: OwnerRef,
    initialize: bool,
    before: C::Scene,
    post: Seq<Entry<C>>,
    after: C::Scene,
    rejected: Option<C>,
)
    requires
        distinct(pre),
        admitted(pre, component, owner, initialize, before, post, after, rejected),
    ensures
        registered(post, component.identity()),
        distinct(post),
        forall|id: Identity|
            registered(post, id) <==> registered(pre, id) || id == component.identity(),
        rejected is None <==> !registered(pre, component.identity()),
        !registered(pre, component.identity()) ==> post.len() == pre.len() + 1 && attached(
            component,
            owner,
            initialize,
            before,
            post[index_of(post, component.identity())],
            after,
        ),
{
    let id = component.identity();
    if !registered(pre, id) {
        let entry = post[index_of(post, id)];
        let rest = stable_sort(refreshed(pre));
        lemma_sorted_keeps(pre);
        lemma_sorted_insert_distinct(rest, entry);
        lemma_insert_pos(rest, entry.order);
        rest.insert_ensures(insert_pos(rest, entry.order), entry);
        assert forall|other: Identity|
            registered(post, other) <==> registered(pre, other) || other == id by {
            lemma_sorted_insert_registered(rest, entry, other);
        }
    }
}

/// Adding a second component of an identity changes nothing: the first one
/// stays, where it is and as it is, the scene is left alone, and the second
/// comes back as it was handed in, with no hook run on it.
pub proof fn lemma_added_twice<C: Component>(
    pre: Seq<Entry<C>>,
    first: C,
    first_owner: OwnerRef,
    first_initialize: bool,
    before: C::Scene,
    mid: Seq<Entry<C>>,
    between: C::Scene,
    first_rejected: Option<C>,
    second: C,
    second_owner: OwnerRef,
    second_initialize: bool,
    post: Seq<Entry<C>>,
    after: C::Scene,
    second_rejected: Option<C>,
)
    requires
        distinct(pre),
        admitted(pre, first, first_owner, first_initialize, before, mid, between, first_rejected),
        admitted(
            mid,
            second,
            second_owner,
            second_initialize,
            between,
            post,
            after,
            second_rejected,
        ),
        second.identity() == first.identity(),
    ensures
        post == mid,
        after == between,
        second_rejected == Some(second),
{
    lemma_added_is_found(
        pre,
        first,
        first_owner,
        first_initialize,
        before,
        mid,
        between,
        first_rejected,
    );
}

/// A sequence stays sorted when a component is added, and the entries of one
/// priority keep their order, the new entry standing behind its equals.
pub proof fn lemma_added_keeps_order<C: Component>(
    pre: Seq<Entry<C>>,
    component: C,
    owner: OwnerRef,
    initialize: bool,
    before: C::Scene,
    post: Seq<Entry<C>>,
    after: C::Scene,
    rejected: Option<C>,
    order: usize,
)
    requires
        sorted(pre),
        admitted(pre, component, owner, initialize, before, post, after, rejected),
    ensures
        sorted(post),
        registered(pre, component.identity()) ==> post.filter(of_order(order)) == pre.filter(
            of_order(order),
        ),
        !registered(pre, component.identity()) ==> post.filter(of_order(order)) == if post[index_of(
            post,
            component.identity(),
        )].order == order {
            refreshed(pre).filter(of_order(order)).push(post[index_of(post, component.identity())])
        } else {
            refreshed(pre).filter(of_order(order))
        },
{
    if !registered(pre, component.identity()) {
        let entry = post[index_of(post, component.identity())];
        lemma_stable_sort_sorted(refreshed(pre));
        lemma_sorted_insert_sorted(stable_sort(refreshed(pre)), entry);
        lemma_stable_sort_keeps_ties(refreshed(pre), order);
        lemma_sorted_insert_ties(stable_sort(refreshed(pre)), entry, order);
    }
}

/// After a removal nothing is registered under the identity, the component
/// that came out has no owner, and every other entry is still registered.
pub proof fn lemma_removed_is_gone<C: Component>(
    pre: Seq<Entry<C>>,
    id: Identity,
    before: C::Scene,
    post: Seq<Entry<C>>,
    after: C::Scene,
    component: Option<C>,
)
    requires
        distinct(pre),
        removed(pre, id, before, post, after, component),
    ensures
        !registered(post, id),
        component is Some <==> registered(pre, id),
        component is Some ==> component->0.owner() is None,
        forall|other: Identity|
            other != id ==> (registered(post, other) <==> registered(pre, other)),
        distinct(post),
        sorted(pre) ==> sorted(post),
{
    if registered(pre, id) {
        lemma_remove(pre, index_of(pre, id));
    }
}

/// Hooks leave identities and stored priorities as they are: the sequence
/// stays distinct and ascending, and what was registered is registered.
pub proof fn lemma_all_ran_keeps<C: Component>(
    hooks: Seq<Hook>,
    pre: Seq<Entry<C>>,
    before: C::Scene,
    post: Seq<Entry<C>>,
    after: C::Scene,
)
    requires
        all_ran(hooks, pre, before, post, after),
    ensures
        post.len() == pre.len(),
        forall|i: int|
            0 <= i < pre.len() ==> (#[trigger] post[i]).identity == pre[i].identity && post[i].order
                == pre[i].order,
        distinct(pre) ==> distinct(post),
        sorted(pre) ==> sorted(post),
        forall|id: Identity| registered(post, id) <==> registered(pre, id),
        pre.len() == 0 ==> after == before,
{
    let scenes = choose|scenes: Seq<C::Scene>|
        {
            &&& #[trigger] walked_along(hooks, pre, post, scenes)
            &&& scenes[0] == before
            &&& scenes[pre.len() as int] == after
        };
    lemma_same_keys(pre, post);
}

/// Where each component is walked by one hook, the walk is the chain of that
/// hook's effects: entry `i` leads from scene `i` to scene `i + 1`.
pub proof fn lemma_walked_by_one<C: Component>(
    hook: Hook,
    pre: Seq<Entry<C>>,
    post: Seq<Entry<C>>,
    scenes: Seq<C::Scene>,
)
    requires
        post.len() == pre.len(),
        scenes.len() == pre.len() + 1,
        forall|i: int|
            0 <= i < pre.len() ==> {
                &&& (#[trigger] post[i]).identity == pre[i].identity
                &&& post[i].order == pre[i].order
                &&& C::effect(hook, pre[i].component, scenes[i], post[i].component, scenes[i + 1])
            },
    ensures
        walked_along(seq![hook], pre, post, scenes),
        all_ran(seq![hook], pre, scenes[0], post, scenes[pre.len() as int]),
{
    assert forall|i: int| 0 <= i < pre.len() implies {
        &&& (#[trigger] post[i]).identity == pre[i].identity
        &&& post[i].order == pre[i].order
        &&& ran(seq![hook], pre[i].component, scenes[i], post[i].component, scenes[i + 1])
    } by {
        lemma_ran_one(hook, pre[i].component, scenes[i], post[i].component, scenes[i + 1]);
    }
    assert(walked_along(seq![hook], pre, post, scenes));
}

/// Sorting by the present priorities keeps the entries: as many as before,
/// the same identities registered, distinct if they were, and ascending.
pub proof fn lemma_sorted_keeps<C: Component>(entries: Seq<Entry<C>>)
    ensures
        stable_sort(refreshed(entries)).len() == entries.len(),
        sorted(stable_sort(refreshed(entries))),
        distinct(entries) ==> distinct(stable_sort(refreshed(entries))),
        forall|id: Identity|
            registered(stable_sort(refreshed(entries)), id) <==> registered(entries, id),
{
    lemma_refreshed(entries);
    lemma_stable_sort_permutes(refreshed(entries));
    lemma_stable_sort_sorted(refreshed(entries));
    if distinct(entries) {
        lemma_stable_sort_distinct(refreshed(entries));
    }
    assert forall|id: Identity|
        registered(stable_sort(refreshed(entries)), id) <==> registered(entries, id) by {
        lemma_stable_sort_registered(refreshed(entries), id);
    }
}

} // verus!
