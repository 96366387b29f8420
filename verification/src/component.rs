use crate::identity::{Identity, OwnerRef};
use vstd::prelude::*;

verus! {

/// The lifecycle hooks of a component.
#[derive(Clone, Copy, Debug, PartialEq, Eq, Structural)]
pub enum Hook {
    Init,
    Clear,
    BeforeRender,
    Render,
    AfterRender,
}

/// What renderers and plugins have in common: an identity, a priority, a
/// reference to the owning scene renderer, and the lifecycle hooks.
///
/// `identity`, `order` and `owner` are the component as contracts see it; the
/// three getters return exactly these. Every hook is handed the scene that the
/// owner is bound to, and may change it: the scene is what one hook leaves to
/// the next, so that the order in which hooks run shows in it.
///
/// `effect` says what one run of a hook may make of the component and of the
/// scene, `assigned` what setting the owner may make of the component. Both
/// are `true` unless an implementation states more; a hook promises its own
/// `effect` and nothing else.
pub trait Component: Sized {
    /// The scene that the hooks work on.
    type Scene;

    spec fn identity(&self) -> Identity;

    spec fn order(&self) -> usize;

    spec fn owner(&self) -> Option<OwnerRef>;

    open spec fn effect(
        hook: Hook,
        pre: Self,
        before: Self::Scene,
        post: Self,
        after: Self::Scene,
    ) -> bool {
        true
    }

    open spec fn assigned(owner: Option<OwnerRef>, pre: Self, post: Self) -> bool {
        true
    }

    fn get_id(&self) -> (id: Identity)
        ensures
            id == self.identity(),
    ;

    fn get_order(&self) -> (order: usize)
        ensures
            order == self.order(),
    ;

    fn get_scene_renderer(&self) -> (owner: Option<OwnerRef>)
        ensures
            owner == self.owner(),
    ;

    fn set_scene_renderer(&mut self, owner: Option<OwnerRef>)
        ensures
            final(self).owner() == owner,
            Self::assigned(owner, *old(self), *final(self)),
    ;

    fn init(&mut self, scene: &mut Self::Scene)
        ensures
            Self::effect(Hook::Init, *old(self), *old(scene), *final(self), *final(scene)),
    ;

    fn clear(&mut self, scene: &mut Self::Scene)
        ensures
            Self::effect(Hook::Clear, *old(self), *old(scene), *final(self), *final(scene)),
    ;

    fn before_render(&mut self, scene: &mut Self::Scene)
        ensures
            Self::effect(Hook::BeforeRender, *old(self), *old(scene), *final(self), *final(scene)),
    ;

    fn after_render(&mut self, scene: &mut Self::Scene)
        ensures
            Self::effect(Hook::AfterRender, *old(self), *old(scene), *final(self), *final(scene)),
    ;
}

/// Exactly the hooks of `hooks` ran on the component, first to last, each on
/// the scene that the one before it left: they made `post` of `pre` and
/// `after` of `before`.
pub open spec fn ran<C: Component>(
    hooks: Seq<Hook>,
    pre: C,
    before: C::Scene,
    post: C,
    after: C::Scene,
) -> bool
    decreases hooks.len(),
{
    if hooks.len() == 0 {
        post == pre && after == before
    } else {
        exists|mid: C, between: C::Scene|
            ran(hooks.drop_last(), pre, before, mid, between) && #[trigger] C::effect(
                hooks.last(),
                mid,
                between,
                post,
                after,
            )
    }
}

/// One more hook behind a run of hooks.
pub proof fn lemma_ran_push<C: Component>(
    hooks: Seq<Hook>,
    pre: C,
    before: C::Scene,
    mid: C,
    between: C::Scene,
    hook: Hook,
    post: C,
    after: C::Scene,
)
    requires
        ran(hooks, pre, before, mid, between),
        C::effect(hook, mid, between, post, after),
    ensures
        ran(hooks.push(hook), pre, before, post, after),
{
    let all = hooks.push(hook);
    assert(all.drop_last() == hooks);
    assert(ran(all.drop_last(), pre, before, mid, between) && C::effect(
        all.last(),
        mid,
        between,
        post,
        after,
    ));
}

/// A single hook is a run of one, and a run of one is a single hook.
pub proof fn lemma_ran_one<C: Component>(
    hook: Hook,
    pre: C,
    before: C::Scene,
    post: C,
    after: C::Scene,
)
    ensures
        ran(seq![hook], pre, before, post, after) <==> C::effect(hook, pre, before, post, after),
{
    let one = seq![hook];
    assert(one.drop_last() == Seq::<Hook>::empty());
    assert(one.last() == hook);
    if C::effect(hook, pre, before, post, after) {
        assert(ran(one.drop_last(), pre, before, pre, before) && C::effect(
            one.last(),
            pre,
            before,
            post,
            after,
        ));
    }
    if ran(one, pre, before, post, after) {
        let (mid, between) = choose|mid: C, between: C::Scene|
            ran(one.drop_last(), pre, before, mid, between) && #[trigger] C::effect(
                one.last(),
                mid,
                between,
                post,
                after,
            );
        assert(ran(Seq::<Hook>::empty(), pre, before, mid, between));
    }
}

} // verus!
