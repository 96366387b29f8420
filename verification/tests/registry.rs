use scene_renderer::{Component, Entry, Identity, OrderedRegistry, OwnerRef};
use std::cell::Cell;
use std::rc::Rc;

#[derive(Debug, PartialEq)]
struct Item {
    id: u64,
    order: Rc<Cell<usize>>,
    owner: Option<OwnerRef>,
    inits: usize,
    clears: usize,
    frames: Vec<&'static str>,
}

/// The scene of these tests: the hooks write the component's number into it.
type Trail = Vec<u64>;

impl Item {
    fn new(id: u64, order: usize) -> Self {
        Item {
            id,
            order: Rc::new(Cell::new(order)),
            owner: None,
            inits: 0,
            clears: 0,
            frames: Vec::new(),
        }
    }
}

impl Component for Item {
    type Scene = Trail;

    fn identity(&self) -> Identity {
        Identity { value: self.id }
    }

    fn order(&self) -> usize {
        self.order.get()
    }

    fn owner(&self) -> Option<OwnerRef> {
        self.owner
    }

    fn get_id(&self) -> Identity {
        Identity { value: self.id }
    }

    fn get_order(&self) -> usize {
        self.order.get()
    }

    fn get_scene_renderer(&self) -> Option<OwnerRef> {
        self.owner
    }

    fn set_scene_renderer(&mut self, owner: Option<OwnerRef>) {
        self.owner = owner;
    }

    fn init(&mut self, scene: &mut Trail) {
        self.inits += 1;
        scene.push(self.id);
    }

    fn clear(&mut self, scene: &mut Trail) {
        self.clears += 1;
        scene.push(self.id);
    }

    fn before_render(&mut self, scene: &mut Trail) {
        self.frames.push("before");
        scene.push(self.id);
    }

    fn after_render(&mut self, scene: &mut Trail) {
        self.frames.push("after");
        scene.push(self.id);
    }
}

fn id(value: u64) -> Identity {
    Identity { value }
}

fn ids(registry: &mut OrderedRegistry<Item>) -> Vec<u64> {
    let mut seen = Trail::new();
    registry.for_each(|item: &mut Item, scene: &mut Trail| scene.push(item.id), &mut seen);
    seen
}

const OWNER: OwnerRef = OwnerRef { id: 3 };

#[test]
fn new_registry_is_empty() {
    let registry: OrderedRegistry<Item> = OrderedRegistry::new();
    assert_eq!(registry.len(), 0);
    assert_eq!(registry.contains(id(0)), false);
    assert!(registry.get(id(0)).is_none());
}

#[test]
fn added_component_is_found() {
    let mut scene = Trail::new();
    let mut registry = OrderedRegistry::new();
    registry.add(Item::new(8, 4), OWNER, false, &mut scene);
    assert_eq!(registry.len(), 1);
    assert_eq!(registry.contains(id(8)), true);
    assert_eq!(registry.contains(id(4)), false);
    let found = registry.get(id(8)).unwrap();
    assert_eq!(found.id, 8);
    assert_eq!(found.owner, Some(OWNER));
    assert_eq!(found.inits, 0);
    assert!(registry.get(id(4)).is_none());
}

#[test]
fn add_can_initialize() {
    let mut scene = Trail::new();
    let mut registry = OrderedRegistry::new();
    registry.add(Item::new(1, 4), OWNER, false, &mut scene);
    registry.add(Item::new(2, 1), OWNER, true, &mut scene);
    registry.add(Item::new(3, 9), OWNER, true, &mut scene);
    assert_eq!(registry.get(id(1)).unwrap().inits, 0);
    assert_eq!(registry.get(id(2)).unwrap().inits, 1);
    assert_eq!(registry.get(id(3)).unwrap().inits, 1);
    assert_eq!(registry.get(id(3)).unwrap().owner, Some(OWNER));
    assert_eq!(ids(&mut registry), vec![2, 1, 3]);
}

#[test]
fn second_component_of_an_identity_is_dropped() {
    let mut scene = Trail::new();
    let mut registry = OrderedRegistry::new();
    assert!(registry.add(Item::new(8, 4), OWNER, false, &mut scene).is_none());
    let rejected = registry.add(Item::new(8, 1), OwnerRef { id: 99 }, true, &mut scene).unwrap();
    assert_eq!(rejected, Item::new(8, 1));
    assert_eq!(scene, Trail::new());
    assert_eq!(registry.len(), 1);
    let found = registry.get(id(8)).unwrap();
    assert_eq!(found.order.get(), 4);
    assert_eq!(found.owner, Some(OWNER));
    assert_eq!(found.inits, 0);
}

#[test]
fn sequence_ascends_in_priority() {
    let mut scene = Trail::new();
    let mut registry = OrderedRegistry::new();
    for (item, order) in [(1, 30), (2, 10), (3, 20), (4, 0), (5, 25), (6, usize::MAX)] {
        registry.add(Item::new(item, order), OWNER, false, &mut scene);
    }
    assert_eq!(ids(&mut registry), vec![4, 2, 3, 5, 1, 6]);
    for item in 1..=6 {
        assert_eq!(registry.contains(id(item)), true);
        assert_eq!(registry.get(id(item)).unwrap().id, item);
    }
}

#[test]
fn ties_keep_insertion_order() {
    let mut scene = Trail::new();
    let mut registry = OrderedRegistry::new();
    for (item, order) in [(1, 1), (2, 0), (3, 1), (4, 0), (5, 1), (6, 0)] {
        registry.add(Item::new(item, order), OWNER, false, &mut scene);
    }
    assert_eq!(ids(&mut registry), vec![2, 4, 6, 1, 3, 5]);
}

#[test]
fn sort_reads_priorities_anew() {
    let mut scene = Trail::new();
    let mut registry = OrderedRegistry::new();
    let first = Item::new(1, 1);
    let second = Item::new(2, 2);
    let third = Item::new(3, 3);
    let order_of_first = first.order.clone();
    let order_of_third = third.order.clone();
    registry.add(first, OWNER, false, &mut scene);
    registry.add(second, OWNER, false, &mut scene);
    registry.add(third, OWNER, false, &mut scene);
    order_of_first.set(2);
    order_of_third.set(0);
    assert_eq!(ids(&mut registry), vec![1, 2, 3]);
    registry.sort();
    assert_eq!(ids(&mut registry), vec![3, 1, 2]);
    assert_eq!(registry.get(id(1)).unwrap().id, 1);
    assert_eq!(registry.get(id(2)).unwrap().id, 2);
    assert_eq!(registry.get(id(3)).unwrap().id, 3);
    registry.sort();
    assert_eq!(ids(&mut registry), vec![3, 1, 2]);
}

#[test]
fn remove_takes_one_out() {
    let mut scene = Trail::new();
    let mut registry = OrderedRegistry::new();
    for (item, order) in [(1, 3), (2, 1), (3, 2)] {
        registry.add(Item::new(item, order), OWNER, false, &mut scene);
    }
    let removed = registry.remove(id(3), &mut scene).unwrap();
    assert_eq!(removed.id, 3);
    assert_eq!(removed.clears, 1);
    assert_eq!(removed.owner, None);
    assert_eq!(registry.len(), 2);
    assert_eq!(registry.contains(id(3)), false);
    assert_eq!(ids(&mut registry), vec![2, 1]);
    assert_eq!(registry.get(id(1)).unwrap().clears, 0);
    assert_eq!(registry.get(id(1)).unwrap().owner, Some(OWNER));
    assert_eq!(registry.get(id(2)).unwrap().id, 2);
}

#[test]
fn remove_of_nothing_changes_nothing() {
    let mut scene = Trail::new();
    let mut registry = OrderedRegistry::new();
    assert_eq!(registry.remove(id(1), &mut scene), None);
    registry.add(Item::new(1, 3), OWNER, false, &mut scene);
    assert_eq!(registry.remove(id(2), &mut scene), None);
    assert_eq!(registry.len(), 1);
    assert!(registry.remove(id(1), &mut scene).is_some());
    assert_eq!(registry.remove(id(1), &mut scene), None);
    assert_eq!(registry.len(), 0);
}

#[test]
fn removed_identity_can_be_added_again() {
    let mut scene = Trail::new();
    let mut registry = OrderedRegistry::new();
    registry.add(Item::new(1, 3), OWNER, false, &mut scene);
    let removed = registry.remove(id(1), &mut scene).unwrap();
    registry.add(removed, OwnerRef { id: 5 }, false, &mut scene);
    let found = registry.get(id(1)).unwrap();
    assert_eq!(found.owner, Some(OwnerRef { id: 5 }));
    assert_eq!(found.clears, 1);
}

#[test]
fn hooks_reach_every_component_once() {
    let mut scene = Trail::new();
    let mut registry = OrderedRegistry::new();
    for (item, order) in [(1, 3), (2, 1), (3, 2)] {
        registry.add(Item::new(item, order), OWNER, false, &mut scene);
    }
    registry.init_all(&mut scene);
    registry.before_render_all(&mut scene);
    registry.after_render_all(&mut scene);
    registry.before_render_all(&mut scene);
    assert_eq!(scene, vec![2, 3, 1, 2, 3, 1, 2, 3, 1, 2, 3, 1]);
    for item in 1..=3 {
        let found = registry.get(id(item)).unwrap();
        assert_eq!(found.inits, 1);
        assert_eq!(found.clears, 0);
        assert_eq!(found.frames, vec!["before", "after", "before"]);
    }
}

#[test]
fn clear_all_keeps_the_components() {
    let mut scene = Trail::new();
    let mut registry = OrderedRegistry::new();
    for (item, order) in [(1, 3), (2, 1), (3, 2)] {
        registry.add(Item::new(item, order), OWNER, false, &mut scene);
    }
    registry.clear_all(&mut scene);
    assert_eq!(scene, vec![2, 3, 1]);
    assert_eq!(registry.len(), 3);
    for item in 1..=3 {
        let found = registry.get(id(item)).unwrap();
        assert_eq!(found.clears, 1);
        assert_eq!(found.owner, Some(OWNER));
    }
}

#[test]
fn take_all_empties_the_registry() {
    let mut scene = Trail::new();
    let mut registry = OrderedRegistry::new();
    for (item, order) in [(1, 3), (2, 1), (3, 2)] {
        registry.add(Item::new(item, order), OWNER, false, &mut scene);
    }
    let components = registry.take_all();
    assert_eq!(components.iter().map(|item| item.id).collect::<Vec<u64>>(), vec![2, 3, 1]);
    for item in components.iter() {
        assert_eq!(item.clears, 0);
        assert_eq!(item.owner, None);
    }
    assert_eq!(registry.len(), 0);
    assert_eq!(registry.contains(id(1)), false);
    assert!(registry.get(id(2)).is_none());
    assert!(registry.take_all().is_empty());
    registry.add(Item::new(1, 0), OWNER, false, &mut scene);
    assert_eq!(registry.contains(id(1)), true);
}

#[test]
fn for_each_changes_components_in_place() {
    let mut scene = Trail::new();
    let mut registry = OrderedRegistry::new();
    for (item, order) in [(1, 3), (2, 1)] {
        registry.add(Item::new(item, order), OWNER, false, &mut scene);
    }
    registry.for_each(|item: &mut Item, _scene: &mut Trail| item.inits += 10, &mut scene);
    assert_eq!(registry.get(id(1)).unwrap().inits, 10);
    assert_eq!(registry.get(id(2)).unwrap().inits, 10);
}

#[test]
fn entry_keeps_identity_and_priority() {
    let entry = Entry::new(Item::new(6, 11));
    assert_eq!(entry.identity, id(6));
    assert_eq!(entry.order, 11);
    assert_eq!(entry.component.id, 6);
}

#[test]
fn downcast_to_the_stored_type_succeeds() {
    let mut entry = Entry::new(Item::new(6, 11));
    assert_eq!(entry.is(id(6)), true);
    assert_eq!(entry.downcast_ref(id(6)).unwrap().id, 6);
    entry.downcast_mut(id(6)).unwrap().inits = 4;
    assert_eq!(entry.component.inits, 4);
    assert_eq!(entry.identity, id(6));
    assert_eq!(entry.order, 11);
}

#[test]
fn downcast_to_another_type_is_empty() {
    let mut entry = Entry::new(Item::new(6, 11));
    assert_eq!(entry.is(id(7)), false);
    assert!(entry.downcast_ref(id(7)).is_none());
    assert!(entry.downcast_mut(id(7)).is_none());
    assert_eq!(entry.component, Item::new(6, 11));
}

#[test]
fn identities_are_ordered_by_value() {
    assert!(id(1) < id(2));
    assert!(id(2) > id(1));
    assert_eq!(id(3), id(3));
    assert_ne!(id(3), id(4));
}
