use scene_renderer::{Component, Identity, OwnerRef, Plugin, Renderer, SceneRenderer};
use std::cell::{Cell, RefCell};
use std::rc::Rc;

/// The scene of these tests: the hooks write their names into it.
type Log = Rc<RefCell<Vec<String>>>;

struct Part {
    name: &'static str,
    id: u64,
    order: Rc<Cell<usize>>,
    owner: Option<OwnerRef>,
}

impl Part {
    fn new(name: &'static str, id: u64, order: usize) -> Self {
        Part { name, id, order: Rc::new(Cell::new(order)), owner: None }
    }

    fn note(&self, scene: &mut Log, hook: &str) {
        scene.borrow_mut().push(format!("{}.{}", self.name, hook));
    }
}

impl Component for Part {
    type Scene = Log;

    fn identity(&self) -> Identity {
        Identity { value: self.id }
    }

    fn order(&self) -> usize {
        self.order.get()
    }

    fn owner(&self) -> Option<OwnerRef> {
        self.owner
    }

    fn get_id(&self) -> Identity {
        Identity { value: self.id }
    }

    fn get_order(&self) -> usize {
        self.order.get()
    }

    fn get_scene_renderer(&self) -> Option<OwnerRef> {
        self.owner
    }

    fn set_scene_renderer(&mut self, owner: Option<OwnerRef>) {
        self.owner = owner;
    }

    fn init(&mut self, scene: &mut Log) {
        self.note(scene, "init");
    }

    fn clear(&mut self, scene: &mut Log) {
        self.note(scene, "clear");
    }

    fn before_render(&mut self, scene: &mut Log) {
        self.note(scene, "before_render");
    }

    fn after_render(&mut self, scene: &mut Log) {
        self.note(scene, "after_render");
    }
}

impl Renderer for Part {
    fn render(&mut self, scene: &mut Log) {
        self.note(scene, "render");
    }
}

impl Plugin for Part {}

fn new_log() -> Log {
    Rc::new(RefCell::new(Vec::new()))
}

fn taken(log: &Log) -> Vec<String> {
    log.borrow_mut().drain(..).collect()
}

fn lines(expected: &[&str]) -> Vec<String> {
    expected.iter().map(|line| line.to_string()).collect()
}

fn new_scene_renderer(log: &Log) -> SceneRenderer<Log, Part, Part> {
    SceneRenderer::new(log.clone(), OwnerRef { id: 7 })
}

fn id(value: u64) -> Identity {
    Identity { value }
}

#[test]
fn render_follows_priority() {
    let log = new_log();
    let mut scene_renderer = new_scene_renderer(&log);
    scene_renderer.add_renderer(Part::new("a", 1, 5));
    scene_renderer.add_renderer(Part::new("b", 2, 1));
    assert_eq!(taken(&log), lines(&[]));

    scene_renderer.render();
    assert_eq!(
        taken(&log),
        lines(&[
            "b.before_render",
            "b.render",
            "b.after_render",
            "a.before_render",
            "a.render",
            "a.after_render",
        ])
    );

    let removed = scene_renderer.remove_renderer(id(2)).unwrap();
    assert_eq!(removed.name, "b");
    assert_eq!(removed.owner, None);
    assert_eq!(taken(&log), lines(&["b.clear"]));

    scene_renderer.render();
    assert_eq!(taken(&log), lines(&["a.before_render", "a.render", "a.after_render"]));
}

#[test]
fn render_keeps_ties_in_insertion_order() {
    let log = new_log();
    let mut scene_renderer = new_scene_renderer(&log);
    scene_renderer.add_renderer(Part::new("x", 1, 2));
    scene_renderer.add_renderer(Part::new("y", 2, 2));
    scene_renderer.add_renderer(Part::new("z", 3, 1));
    scene_renderer.render();
    assert_eq!(
        taken(&log),
        lines(&[
            "z.before_render",
            "z.render",
            "z.after_render",
            "x.before_render",
            "x.render",
            "x.after_render",
            "y.before_render",
            "y.render",
            "y.after_render",
        ])
    );
}

#[test]
fn render_walks_plugins_in_priority() {
    let log = new_log();
    let mut scene_renderer = new_scene_renderer(&log);
    scene_renderer.add_plugin(Part::new("a", 1, 5));
    scene_renderer.add_plugin(Part::new("b", 2, 1));
    scene_renderer.render();
    assert_eq!(
        taken(&log),
        lines(&["b.before_render", "a.before_render", "b.after_render", "a.after_render"])
    );
}

#[test]
fn late_renderer_is_initialized_at_once() {
    let log = new_log();
    let mut scene_renderer = new_scene_renderer(&log);
    scene_renderer.add_renderer(Part::new("a", 1, 5));
    scene_renderer.add_renderer(Part::new("b", 2, 1));
    scene_renderer.init();
    assert_eq!(taken(&log), lines(&["b.init", "a.init"]));

    scene_renderer.add_renderer(Part::new("c", 3, 3));
    assert_eq!(taken(&log), lines(&["c.init"]));

    scene_renderer.render();
    assert_eq!(
        taken(&log),
        lines(&[
            "b.before_render",
            "b.render",
            "b.after_render",
            "c.before_render",
            "c.render",
            "c.after_render",
            "a.before_render",
            "a.render",
            "a.after_render",
        ])
    );
}

#[test]
fn late_plugin_is_initialized_at_once() {
    let log = new_log();
    let mut scene_renderer = new_scene_renderer(&log);
    scene_renderer.add_plugin(Part::new("early", 1, 0));
    assert_eq!(taken(&log), lines(&[]));
    scene_renderer.init();
    assert_eq!(taken(&log), lines(&["early.init"]));
    assert!(scene_renderer.add_plugin(Part::new("late", 2, 0)).is_none());
    assert_eq!(taken(&log), lines(&["late.init"]));
    let rejected = scene_renderer.add_plugin(Part::new("again", 2, 0)).unwrap();
    assert_eq!(taken(&log), lines(&[]));
    assert_eq!(rejected.name, "again");
    assert_eq!(rejected.owner, None);
    assert_eq!(scene_renderer.get_plugin(id(2)).unwrap().name, "late");
}

#[test]
fn rejected_renderer_comes_back_untouched() {
    let log = new_log();
    let mut scene_renderer = new_scene_renderer(&log);
    scene_renderer.init();
    assert!(scene_renderer.add_renderer(Part::new("first", 1, 4)).is_none());
    assert_eq!(taken(&log), lines(&["first.init"]));
    let mut second = Part::new("second", 1, 0);
    second.owner = Some(OwnerRef { id: 99 });
    let rejected = scene_renderer.add_renderer(second).unwrap();
    assert_eq!(taken(&log), lines(&[]));
    assert_eq!(rejected.name, "second");
    assert_eq!(rejected.owner, Some(OwnerRef { id: 99 }));
    assert_eq!(rejected.order.get(), 0);
    assert_eq!(scene_renderer.get_renderer(id(1)).unwrap().name, "first");
    assert_eq!(scene_renderer.get_renderer(id(1)).unwrap().owner, Some(OwnerRef { id: 7 }));
}

#[test]
fn init_twice_fires_hooks_once() {
    let log = new_log();
    let mut scene_renderer = new_scene_renderer(&log);
    scene_renderer.add_plugin(Part::new("plug", 1, 0));
    scene_renderer.add_renderer(Part::new("draw", 1, 0));
    scene_renderer.init();
    assert_eq!(taken(&log), lines(&["plug.init", "draw.init"]));
    scene_renderer.init();
    assert_eq!(taken(&log), lines(&[]));
}

#[test]
fn init_runs_plugins_before_renderers() {
    let log = new_log();
    let mut scene_renderer = new_scene_renderer(&log);
    scene_renderer.add_renderer(Part::new("far", 2, 2));
    scene_renderer.add_renderer(Part::new("near", 1, 1));
    scene_renderer.add_plugin(Part::new("top", 9, 9));
    scene_renderer.add_plugin(Part::new("high", 3, 3));
    scene_renderer.init();
    assert_eq!(taken(&log), lines(&["high.init", "top.init", "near.init", "far.init"]));
}

#[test]
fn init_runs_a_late_priority_plugin_before_an_early_renderer() {
    let log = new_log();
    let mut scene_renderer = new_scene_renderer(&log);
    scene_renderer.add_renderer(Part::new("draw", 1, 0));
    scene_renderer.add_plugin(Part::new("plug", 2, 9));
    scene_renderer.init();
    assert_eq!(taken(&log), lines(&["plug.init", "draw.init"]));
}

#[test]
fn init_sorts_by_present_priorities() {
    let log = new_log();
    let mut scene_renderer = new_scene_renderer(&log);
    let a = Part::new("a", 1, 1);
    let b = Part::new("b", 2, 2);
    let order_of_a = a.order.clone();
    scene_renderer.add_renderer(a);
    scene_renderer.add_renderer(b);
    order_of_a.set(3);

    scene_renderer.render();
    assert_eq!(
        taken(&log),
        lines(&[
            "a.before_render",
            "a.render",
            "a.after_render",
            "b.before_render",
            "b.render",
            "b.after_render",
        ])
    );

    scene_renderer.init();
    assert_eq!(taken(&log), lines(&["b.init", "a.init"]));
}

#[test]
fn add_sorts_by_present_priorities() {
    let log = new_log();
    let mut scene_renderer = new_scene_renderer(&log);
    let a = Part::new("a", 1, 1);
    let order_of_a = a.order.clone();
    scene_renderer.add_plugin(a);
    scene_renderer.add_plugin(Part::new("b", 2, 2));
    order_of_a.set(5);
    scene_renderer.add_plugin(Part::new("c", 3, 4));
    scene_renderer.init();
    assert_eq!(taken(&log), lines(&["b.init", "c.init", "a.init"]));
}

#[test]
fn equal_priorities_keep_insertion_order() {
    let log = new_log();
    let mut scene_renderer = new_scene_renderer(&log);
    scene_renderer.add_plugin(Part::new("x", 1, 2));
    scene_renderer.add_plugin(Part::new("y", 2, 2));
    scene_renderer.add_plugin(Part::new("z", 3, 1));
    scene_renderer.add_plugin(Part::new("w", 4, 2));
    scene_renderer.init();
    assert_eq!(taken(&log), lines(&["z.init", "x.init", "y.init", "w.init"]));

    let mut handle = Part::new("y", 2, 2);
    handle.owner = Some(OwnerRef { id: 7 });
    let removed = scene_renderer.remove_plugin(&mut handle).unwrap();
    assert_eq!(removed.name, "y");
    assert_eq!(removed.owner, None);
    assert_eq!(handle.owner, None);
    assert_eq!(taken(&log), lines(&["y.clear"]));
    scene_renderer.render();
    assert_eq!(
        taken(&log),
        lines(&[
            "z.before_render",
            "x.before_render",
            "w.before_render",
            "z.after_render",
            "x.after_render",
            "w.after_render",
        ])
    );
}

#[test]
fn render_brackets_renderers_with_plugins() {
    let log = new_log();
    let mut scene_renderer = new_scene_renderer(&log);
    scene_renderer.add_plugin(Part::new("mid", 2, 2));
    scene_renderer.add_plugin(Part::new("low", 1, 1));
    scene_renderer.add_renderer(Part::new("draw", 1, 0));
    scene_renderer.render();
    assert_eq!(
        taken(&log),
        lines(&[
            "low.before_render",
            "mid.before_render",
            "draw.before_render",
            "draw.render",
            "draw.after_render",
            "low.after_render",
            "mid.after_render",
        ])
    );
}

#[test]
fn render_of_nothing_does_nothing() {
    let log = new_log();
    let mut scene_renderer = new_scene_renderer(&log);
    scene_renderer.render();
    scene_renderer.init();
    scene_renderer.render();
    assert_eq!(taken(&log), lines(&[]));
}

#[test]
fn clear_hands_the_components_out() {
    let log = new_log();
    let mut scene_renderer = new_scene_renderer(&log);
    scene_renderer.add_renderer(Part::new("far", 2, 2));
    scene_renderer.add_renderer(Part::new("near", 1, 1));
    scene_renderer.add_plugin(Part::new("plug", 1, 0));
    scene_renderer.init();
    taken(&log);
    assert_eq!(scene_renderer.get_plugin(id(1)).unwrap().owner, Some(OwnerRef { id: 7 }));

    let (renderers, plugins) = scene_renderer.clear();
    assert_eq!(taken(&log), lines(&["near.clear", "far.clear", "plug.clear"]));
    assert_eq!(renderers.len(), 2);
    assert_eq!(renderers[0].name, "near");
    assert_eq!(renderers[1].name, "far");
    assert_eq!(renderers[0].owner, None);
    assert_eq!(renderers[1].owner, None);
    assert_eq!(plugins.len(), 1);
    assert_eq!(plugins[0].name, "plug");
    assert_eq!(plugins[0].owner, None);
    assert_eq!(scene_renderer.has_renderer(id(1)), false);
    assert_eq!(scene_renderer.has_renderer(id(2)), false);
    assert_eq!(scene_renderer.has_plugin(id(1)), false);

    scene_renderer.render();
    assert_eq!(taken(&log), lines(&[]));
}

#[test]
fn clear_runs_renderers_before_plugins() {
    let log = new_log();
    let mut scene_renderer = new_scene_renderer(&log);
    scene_renderer.add_plugin(Part::new("low", 1, 0));
    scene_renderer.add_plugin(Part::new("mid", 2, 1));
    scene_renderer.add_renderer(Part::new("far", 2, 9));
    scene_renderer.add_renderer(Part::new("near", 1, 8));
    scene_renderer.clear();
    assert_eq!(taken(&log), lines(&["near.clear", "far.clear", "low.clear", "mid.clear"]));
}

#[test]
fn clear_then_init_initializes_what_is_present() {
    let log = new_log();
    let mut scene_renderer = new_scene_renderer(&log);
    scene_renderer.add_renderer(Part::new("draw", 1, 0));
    scene_renderer.add_plugin(Part::new("plug", 1, 0));
    scene_renderer.init();
    assert_eq!(taken(&log), lines(&["plug.init", "draw.init"]));

    let (mut renderers, mut plugins) = scene_renderer.clear();
    assert_eq!(taken(&log), lines(&["draw.clear", "plug.clear"]));

    scene_renderer.init();
    assert_eq!(taken(&log), lines(&[]));

    scene_renderer.clear();
    scene_renderer.add_renderer(renderers.pop().unwrap());
    scene_renderer.add_plugin(plugins.pop().unwrap());
    assert_eq!(taken(&log), lines(&[]));
    assert_eq!(scene_renderer.get_renderer(id(1)).unwrap().owner, Some(OwnerRef { id: 7 }));
    scene_renderer.init();
    assert_eq!(taken(&log), lines(&["plug.init", "draw.init"]));
    scene_renderer.init();
    assert_eq!(taken(&log), lines(&[]));
}

#[test]
fn for_each_plugin_visits_in_order() {
    let log = new_log();
    let mut scene_renderer = new_scene_renderer(&log);
    scene_renderer.add_plugin(Part::new("high", 3, 3));
    scene_renderer.add_plugin(Part::new("low", 1, 1));
    scene_renderer.add_plugin(Part::new("mid", 2, 2));
    scene_renderer.add_renderer(Part::new("draw", 4, 0));
    scene_renderer.for_each_plugin(|plugin: &mut Part, scene: &mut Log| {
        plugin.note(scene, "seen");
        plugin.name = "visited";
    });
    assert_eq!(taken(&log), lines(&["low.seen", "mid.seen", "high.seen"]));
    assert_eq!(scene_renderer.get_plugin(id(1)).unwrap().name, "visited");
    assert_eq!(scene_renderer.get_plugin(id(3)).unwrap().name, "visited");
    assert_eq!(scene_renderer.get_renderer(id(4)).unwrap().name, "draw");
}

#[test]
fn hooks_work_on_the_bound_scene() {
    let log = new_log();
    let mut scene_renderer = new_scene_renderer(&log);
    scene_renderer.add_renderer(Part::new("draw", 1, 0));
    scene_renderer.init();
    assert!(Rc::ptr_eq(scene_renderer.get_scene(), &log));
    assert_eq!(*scene_renderer.get_scene().borrow(), lines(&["draw.init"]));
}

#[test]
fn renderers_and_plugins_are_kept_apart() {
    let log = new_log();
    let mut scene_renderer = new_scene_renderer(&log);
    scene_renderer.add_renderer(Part::new("draw", 1, 0));
    assert_eq!(scene_renderer.has_renderer(id(1)), true);
    assert_eq!(scene_renderer.has_plugin(id(1)), false);
    scene_renderer.add_plugin(Part::new("plug", 1, 0));
    assert_eq!(scene_renderer.get_renderer(id(1)).unwrap().name, "draw");
    assert_eq!(scene_renderer.get_plugin(id(1)).unwrap().name, "plug");
}
