use crate::component::{lemma_ran_one, Hook};
use crate::entry::Entry;
use crate::identity::{Identity, OwnerRef};
use crate::plugin::Plugin;
use crate::registry::OrderedRegistry;
use crate::renderer::Renderer;
use crate::sorting::{
    distinct, index_of, lemma_insert_pos, lemma_refreshed, refresh, refreshed, registered, sorted,
    stable_sort,
};
use crate::transitions::{
    admitted, all_ran, cleared, lemma_added_is_found, lemma_all_ran_keeps, lemma_sorted_keeps,
    removed, walked_along,
};
use vstd::prelude::*;

verus! {

/// A scene renderer as contracts see it: the scene it is bound to, as the
/// hooks have left it; the reference it hands to its components; whether it
/// is initialized; and its renderers and plugins in dispatch order.
pub struct SceneRendererView<S, R, P> {
    pub scene: S,
    pub owner: OwnerRef,
    pub initialized: bool,
    pub renderers: Seq<Entry<R>>,
    pub plugins: Seq<Entry<P>>,
}

impl<S, R: Renderer<Scene = S>, P: Plugin<Scene = S>> SceneRendererView<S, R, P> {
    /// The two walks of `init`: the `init` hooks ran along the sorted
    /// plugins, from this state's scene to `between`, and after that along
    /// the sorted renderers, from `between` to the scene of `post`.
    pub open spec fn init_steps(self, between: S, post: Self) -> bool {
        &&& all_ran(
            seq![Hook::Init],
            stable_sort(refreshed(self.plugins)),
            self.scene,
            post.plugins,
            between,
        )
        &&& all_ran(
            seq![Hook::Init],
            stable_sort(refreshed(self.renderers)),
            between,
            post.renderers,
            post.scene,
        )
    }

    /// `post` is this state after `init`: unchanged where it is initialized
    /// already; else initialized, with plugins and renderers sorted by their
    /// present priorities and the `init` hook run once on each, on the
    /// plugins first and on the renderers after them, each group in
    /// ascending priority.
    pub open spec fn init_yields(self, post: Self) -> bool {
        if self.initialized {
            post == self
        } else {
            &&& post.owner == self.owner
            &&& post.initialized
            &&& exists|between: S| #[trigger] self.init_steps(between, post)
        }
    }

    /// The three walks of `render`: `before_render` along the plugins, which
    /// leaves them as `framed` and the scene as `first`; the renderers, each
    /// with its three hooks, which leaves the scene as `second`; and
    /// `after_render` along the plugins.
    pub open spec fn render_steps(
        self,
        framed: Seq<Entry<P>>,
        first: S,
        second: S,
        post: Self,
    ) -> bool {
        &&& all_ran(seq![Hook::BeforeRender], self.plugins, self.scene, framed, first)
        &&& all_ran(
            seq![Hook::BeforeRender, Hook::Render, Hook::AfterRender],
            self.renderers,
            first,
            post.renderers,
            second,
        )
        &&& all_ran(seq![Hook::AfterRender], framed, second, post.plugins, post.scene)
    }

    /// `post` is this state after `render`: `before_render` ran on every
    /// plugin; after that, on every renderer, `before_render`, `render` and
    /// `after_render`; after that `after_render` on every plugin; each group
    /// in ascending priority. Nothing else changed.
    pub open spec fn render_yields(self, post: Self) -> bool {
        &&& post.owner == self.owner
        &&& post.initialized == self.initialized
        &&& exists|framed: Seq<Entry<P>>, first: S, second: S| #[trigger]
            self.render_steps(framed, first, second, post)
    }

    /// The two walks of `clear`: the renderers are cleared and come out as
    /// `renderers`, which leaves the scene as `between`, and after that the
    /// plugins, which come out as `plugins`.
    pub open spec fn clear_steps(
        self,
        between: S,
        post: Self,
        renderers: Seq<R>,
        plugins: Seq<P>,
    ) -> bool {
        &&& cleared(self.renderers, self.scene, renderers, between)
        &&& cleared(self.plugins, between, plugins, post.scene)
    }

    /// `post` is this state after `clear`: uninitialized and without
    /// components. They are handed out, the `clear` hook having run on every
    /// renderer and after that on every plugin, each group in ascending
    /// priority, and every owner reference emptied.
    pub open spec fn clear_yields(self, post: Self, renderers: Seq<R>, plugins: Seq<P>) -> bool {
        &&& post.owner == self.owner
        &&& !post.initialized
        &&& post.renderers.len() == 0
        &&& post.plugins.len() == 0
        &&& exists|between: S| #[trigger] self.clear_steps(between, post, renderers, plugins)
    }

    /// `post` is this state after `add_renderer(renderer)`, which handed
    /// `rejected` back.
    pub open spec fn add_renderer_yields(
        self,
        renderer: R,
        post: Self,
        rejected: Option<R>,
    ) -> bool {
        &&& post.owner == self.owner
        &&& post.initialized == self.initialized
        &&& post.plugins == self.plugins
        &&& admitted(
            self.renderers,
            renderer,
            self.owner,
            self.initialized,
            self.scene,
            post.renderers,
            post.scene,
            rejected,
        )
    }

    /// `post` is this state after `add_plugin(plugin)`, which handed
    /// `rejected` back.
    pub open spec fn add_plugin_yields(self, plugin: P, post: Self, rejected: Option<P>) -> bool {
        &&& post.owner == self.owner
        &&& post.initialized == self.initialized
        &&& post.renderers == self.renderers
        &&& admitted(
            self.plugins,
            plugin,
            self.owner,
            self.initialized,
            self.scene,
            post.plugins,
            post.scene,
            rejected,
        )
    }

    /// `post` is this state after the renderer registered under `id` was
    /// taken out as `renderer`.
    pub open spec fn remove_renderer_yields(
        self,
        id: Identity,
        post: Self,
        renderer: Option<R>,
    ) -> bool {
        &&& post.owner == self.owner
        &&& post.initialized == self.initialized
        &&& post.plugins == self.plugins
        &&& removed(self.renderers, id, self.scene, post.renderers, post.scene, renderer)
    }

    /// `post` is this state after the plugin registered under `id` was taken
    /// out as `plugin`.
    pub open spec fn remove_plugin_yields(
        self,
        id: Identity,
        post: Self,
        plugin: Option<P>,
    ) -> bool {
        &&& post.owner == self.owner
        &&& post.initialized == self.initialized
        &&& post.renderers == self.renderers
        &&& removed(self.plugins, id, self.scene, post.plugins, post.scene, plugin)
    }
}

/// A second `init` changes nothing: no hook runs again.
pub proof fn lemma_init_twice<S, R: Renderer<Scene = S>, P: Plugin<Scene = S>>(
    pre: SceneRendererView<S, R, P>,
    mid: SceneRendererView<S, R, P>,
    post: SceneRendererView<S, R, P>,
)
    requires
        pre.init_yields(mid),
        mid.init_yields(post),
    ensures
        mid.initialized,
        post == mid,
{
}

/// `clear` leaves nothing to initialize: an `init` behind it runs no hook,
/// leaves the scene alone and makes the empty scene renderer initialized.
pub proof fn lemma_clear_then_init<S, R: Renderer<Scene = S>, P: Plugin<Scene = S>>(
    pre: SceneRendererView<S, R, P>,
    renderers: Seq<R>,
    plugins: Seq<P>,
    mid: SceneRendererView<S, R, P>,
    post: SceneRendererView<S, R, P>,
)
    requires
        pre.clear_yields(mid, renderers, plugins),
        mid.init_yields(post),
    ensures
        post.initialized,
        post.renderers.len() == 0,
        post.plugins.len() == 0,
        post.scene == mid.scene,
{
    let between = choose|between: S| #[trigger] mid.init_steps(between, post);
    lemma_sorted_keeps(mid.renderers);
    lemma_sorted_keeps(mid.plugins);
    lemma_all_ran_keeps(
        seq![Hook::Init],
        stable_sort(refreshed(mid.plugins)),
        mid.scene,
        post.plugins,
        between,
    );
    lemma_all_ran_keeps(
        seq![Hook::Init],
        stable_sort(refreshed(mid.renderers)),
        between,
        post.renderers,
        post.scene,
    );
}

/// A renderer that is added again after `clear` is initialized by the next
/// `init`, exactly once: its owner was set, its `init` hook ran on the scene
/// as `clear` left it, and no other hook ran.
pub proof fn lemma_clear_add_init<S, R: Renderer<Scene = S>, P: Plugin<Scene = S>>(
    pre: SceneRendererView<S, R, P>,
    renderers: Seq<R>,
    plugins: Seq<P>,
    emptied: SceneRendererView<S, R, P>,
    renderer: R,
    added: SceneRendererView<S, R, P>,
    rejected: Option<R>,
    post: SceneRendererView<S, R, P>,
)
    requires
        pre.clear_yields(emptied, renderers, plugins),
        emptied.add_renderer_yields(renderer, added, rejected),
        added.init_yields(post),
    ensures
        rejected is None,
        post.initialized,
        post.renderers.len() == 1,
        post.renderers[0].identity == renderer.identity(),
        exists|joined: R|
            {
                &&& #[trigger] R::assigned(Some(pre.owner), renderer, joined)
                &&& joined.owner() == Some(pre.owner)
                &&& R::effect(
                    Hook::Init,
                    joined,
                    emptied.scene,
                    post.renderers[0].component,
                    post.scene,
                )
            },
{
    let id = renderer.identity();
    let none = emptied.renderers;
    assert(!registered(none, id));
    lemma_added_is_found(
        none,
        renderer,
        emptied.owner,
        false,
        emptied.scene,
        added.renderers,
        added.scene,
        rejected,
    );
    let one = added.renderers;
    let entry = one[index_of(one, id)];
    assert(one.len() == 1);
    assert(one[0] == entry);
    lemma_refreshed(one);
    let fresh = refreshed(one);
    assert(fresh[0] == refresh(one[0]));
    assert(fresh == one);
    assert(stable_sort(one) == one) by {
        assert(one.drop_last() == Seq::<Entry<R>>::empty());
        assert(stable_sort(one.drop_last()) == Seq::<Entry<R>>::empty());
        lemma_insert_pos(Seq::<Entry<R>>::empty(), entry.order);
        assert(Seq::<Entry<R>>::empty().insert(0, entry) == one);
    }
    let between = choose|between: S| #[trigger] added.init_steps(between, post);
    lemma_sorted_keeps(added.plugins);
    lemma_all_ran_keeps(
        seq![Hook::Init],
        stable_sort(refreshed(added.plugins)),
        added.scene,
        post.plugins,
        between,
    );
    let scenes = choose|scenes: Seq<S>|
        {
            &&& #[trigger] walked_along(seq![Hook::Init], one, post.renderers, scenes)
            &&& scenes[0] == between
            &&& scenes[one.len() as int] == post.scene
        };
    let joined = entry.component;
    lemma_ran_one(Hook::Init, joined, scenes[0], post.renderers[0].component, scenes[1]);
    assert(R::assigned(Some(pre.owner), renderer, joined));
}

/// The owner of renderers and plugins: it registers them, one per identity,
/// and drives them through the lifecycle phases in ascending priority, on
/// the scene it is bound to.
pub struct SceneRenderer<S, R, P> {
    scene: S,
    owner: OwnerRef,
    initted: bool,
    renderers: OrderedRegistry<R>,
    plugins: OrderedRegistry<P>,
}

impl<S, R: Renderer<Scene = S>, P: Plugin<Scene = S>> SceneRenderer<S, R, P> {
    /// The scene renderer as contracts see it.
    pub closed spec fn view(&self) -> SceneRendererView<S, R, P> {
        SceneRendererView {
            scene: self.scene,
            owner: self.owner,
            initialized: self.initted,
            renderers: self.renderers@,
            plugins: self.plugins@,
        }
    }

    /// Both registries agree with their indices.
    pub closed spec fn indexed(&self) -> bool {
        self.renderers.well_formed() && self.plugins.well_formed()
    }

    /// In each registry identities are distinct and stored priorities ascend.
    pub open spec fn well_formed(&self) -> bool {
        &&& distinct(self@.renderers)
        &&& sorted(self@.renderers)
        &&& distinct(self@.plugins)
        &&& sorted(self@.plugins)
        &&& self.indexed()
    }

    /// A scene renderer bound to `scene`, uninitialized and without
    /// components, that will hand `owner` to the components it receives.
    pub fn new(scene: S, owner: OwnerRef) -> (renderer: Self)
        ensures
            renderer.well_formed(),
            renderer@.scene == scene,
            renderer@.owner == owner,
            !renderer@.initialized,
            renderer@.renderers.len() == 0,
            renderer@.plugins.len() == 0,
    {
        SceneRenderer {
            scene,
            owner,
            initted: false,
            renderers: OrderedRegistry::new(),
            plugins: OrderedRegistry::new(),
        }
    }

    /// The scene this renderer is bound to.
    pub fn get_scene(&self) -> (scene: &S)
        ensures
            *scene == self@.scene,
    {
        &self.scene
    }

    /// Initializes the components, once: plugins and renderers are sorted by
    /// their present priorities, and the `init` hook of every plugin runs,
    /// and after them that of every renderer, each group in ascending
    /// priority. On an initialized scene renderer nothing happens.
    pub fn init(&mut self)
        requires
            old(self).well_formed(),
        ensures
            final(self).well_formed(),
            old(self)@.init_yields(final(self)@),
    {
        if !self.initted {
            self.initted = true;
            self.plugins.sort();
            self.renderers.sort();
            self.plugins.init_all(&mut self.scene);
            let ghost between = self.scene;
            self.renderers.init_all(&mut self.scene);
            assert(old(self)@.init_steps(between, self@));
        }
    }

    /// Takes the scene renderer back to the uninitialized state: the `clear`
    /// hook of every renderer runs, and after them that of every plugin,
    /// each group in ascending priority; every owner reference is emptied;
    /// and both registries are emptied. The components are handed out: first
    /// the renderers, second the plugins, each in dispatch order.
    pub fn clear(&mut self) -> (components: (Vec<R>, Vec<P>))
        requires
            old(self).well_formed(),
        ensures
            final(self).well_formed(),
            old(self)@.clear_yields(final(self)@, components.0@, components.1@),
    {
        self.renderers.clear_all(&mut self.scene);
        let ghost between = self.scene;
        self.plugins.clear_all(&mut self.scene);
        self.initted = false;
        let renderers = self.renderers.take_all();
        let plugins = self.plugins.take_all();
        assert(old(self)@.clear_steps(between, self@, renderers@, plugins@));
        (renderers, plugins)
    }

    /// Drives one frame: `before_render` of every plugin; after that, for
    /// every renderer, `before_render`, `render`, `after_render`; after that
    /// `after_render` of every plugin. Each group runs in ascending
    /// priority, whatever the state.
    pub fn render(&mut self)
        requires
            old(self).well_formed(),
        ensures
            final(self).well_formed(),
            old(self)@.render_yields(final(self)@),
    {
        self.plugins.before_render_all(&mut self.scene);
        let ghost framed = self.plugins@;
        let ghost first = self.scene;
        self.renderers.render_all(&mut self.scene);
        let ghost second = self.scene;
        self.plugins.after_render_all(&mut self.scene);
        assert(old(self)@.render_steps(framed, first, second, self@));
    }

    /// Registers `renderer`, unless a renderer of its identity is registered
    /// already: that one stays, and `renderer` comes back untouched. On an
    /// initialized scene renderer the new renderer's `init` hook runs at
    /// once.
    pub fn add_renderer(&mut self, renderer: R) -> (rejected: Option<R>)
        requires
            old(self).well_formed(),
        ensures
            final(self).well_formed(),
            old(self)@.add_renderer_yields(renderer, final(self)@, rejected),
    {
        self.renderers.add(renderer, self.owner, self.initted, &mut self.scene)
    }

    /// Whether a renderer is registered under `id`.
    pub fn has_renderer(&self, id: Identity) -> (found: bool)
        requires
            self.well_formed(),
        ensures
            found == registered(self@.renderers, id),
    {
        self.renderers.contains(id)
    }

    /// Takes out the renderer registered under `id`, after its `clear` hook
    /// ran and its owner reference was emptied.
    pub fn remove_renderer(&mut self, id: Identity) -> (renderer: Option<R>)
        requires
            old(self).well_formed(),
        ensures
            final(self).well_formed(),
            old(self)@.remove_renderer_yields(id, final(self)@, renderer),
    {
        self.renderers.remove(id, &mut self.scene)
    }

    /// The renderer registered under `id`.
    pub fn get_renderer(&self, id: Identity) -> (renderer: Option<&R>)
        requires
            self.well_formed(),
        ensures
            match renderer {
                Some(r) => registered(self@.renderers, id) && *r == self@.renderers[index_of(
                    self@.renderers,
                    id,
                )].component,
                None => !registered(self@.renderers, id),
            },
    {
        self.renderers.get(id)
    }

    /// Registers `plugin`, unless a plugin of its identity is registered
    /// already: that one stays, and `plugin` comes back untouched. On an
    /// initialized scene renderer the new plugin's `init` hook runs at once.
    pub fn add_plugin(&mut self, plugin: P) -> (rejected: Option<P>)
        requires
            old(self).well_formed(),
        ensures
            final(self).well_formed(),
            old(self)@.add_plugin_yields(plugin, final(self)@, rejected),
    {
        self.plugins.add(plugin, self.owner, self.initted, &mut self.scene)
    }

    /// Whether a plugin is registered under `id`.
    pub fn has_plugin(&self, id: Identity) -> (found: bool)
        requires
            self.well_formed(),
        ensures
            found == registered(self@.plugins, id),
    {
        self.plugins.contains(id)
    }

    /// Takes out the plugin registered under the identity of `plugin`, and
    /// empties the owner reference of `plugin` itself as well. A `plugin`
    /// without an owner was never added or is removed already: nothing
    /// happens.
    pub fn remove_plugin(&mut self, plugin: &mut P) -> (removed: Option<P>)
        requires
            old(self).well_formed(),
        ensures
            final(self).well_formed(),
            old(plugin).owner() is None ==> {
                &&& final(self)@ == old(self)@
                &&& *final(plugin) == *old(plugin)
                &&& removed is None
            },
            old(plugin).owner() is Some ==> {
                &&& old(self)@.remove_plugin_yields(old(plugin).identity(), final(self)@, removed)
                &&& final(plugin).owner() == None::<OwnerRef>
                &&& P::assigned(None, *old(plugin), *final(plugin))
            },
    {
        if plugin.get_scene_renderer().is_none() {
            return None;
        }
        let id = plugin.get_id();
        let removed = self.plugins.remove(id, &mut self.scene);
        plugin.set_scene_renderer(None);
        removed
    }

    /// The plugin registered under `id`.
    pub fn get_plugin(&self, id: Identity) -> (plugin: Option<&P>)
        requires
            self.well_formed(),
        ensures
            match plugin {
                Some(p) => registered(self@.plugins, id) && *p == self@.plugins[index_of(
                    self@.plugins,
                    id,
                )].component,
                None => !registered(self@.plugins, id),
            },
    {
        self.plugins.get(id)
    }

    /// Calls `func` on every plugin and the scene, in ascending priority,
    /// each call on the scene as the one before left it.
    pub fn for_each_plugin<F: Fn(&mut P, &mut S)>(&mut self, func: F)
        requires
            old(self).well_formed(),
            forall|plugin: &mut P, on: &mut S| call_requires(func, (plugin, on)),
        ensures
            final(self).well_formed(),
            final(self)@.owner == old(self)@.owner,
            final(self)@.initialized == old(self)@.initialized,
            final(self)@.renderers == old(self)@.renderers,
            final(self)@.plugins.len() == old(self)@.plugins.len(),
            exists|scenes: Seq<S>|
                {
                    &&& #[trigger] scenes.len() == old(self)@.plugins.len() + 1
                    &&& scenes[0] == old(self)@.scene
                    &&& scenes[old(self)@.plugins.len() as int] == final(self)@.scene
                    &&& forall|i: int|
                        0 <= i < old(self)@.plugins.len() ==> {
                            &&& (#[trigger] final(self)@.plugins[i]).identity
                                == old(self)@.plugins[i].identity
                            &&& final(self)@.plugins[i].order == old(self)@.plugins[i].order
                            &&& exists|plugin: &mut P, on: &mut S|
                                {
                                    &&& *plugin == old(self)@.plugins[i].component
                                    &&& *final(plugin) == final(self)@.plugins[i].component
                                    &&& *on == scenes[i]
                                    &&& *final(on) == scenes[i + 1]
                                    &&& #[trigger] call_ensures(func, (plugin, on), ())
                                }
                        }
                },
    {
        self.plugins.for_each(func, &mut self.scene);
    }
}

} // verus!
