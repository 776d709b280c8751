use std::cell::RefCell;
use std::rc::Rc;

use engine::component::{AsAny, Component, ComponentKind};
use engine::component_priority;
use engine::entity::Entity;
use engine::entity_spawner::EntitySpawner;

type Log = Rc<RefCell<Vec<String>>>;

struct Probe {
    tag: &'static str,
    kind: ComponentKind,
    priority: i32,
    log: Log,
}

impl AsAny for Probe {
    fn as_any(&self) -> ComponentKind {
        self.kind
    }
}

impl Component for Probe {
    type Frame = Vec<String>;

    fn get_priority(&self) -> i32 {
        self.priority
    }

    fn enter_play(&mut self) {
        self.log.borrow_mut().push(format!("enter {}", self.tag));
    }

    fn exit_play(&mut self) {
        self.log.borrow_mut().push(format!("exit {}", self.tag));
    }

    fn tick(&mut self, frame: &mut Vec<String>) {
        frame.push(format!("tick {}", self.tag));
    }

    fn physics_tick(&mut self, frame: &mut Vec<String>) {
        frame.push(format!("physics {}", self.tag));
    }

    fn render_tick(&mut self, frame: &mut Vec<String>) {
        frame.push(format!("render {}", self.tag));
    }
}

fn probe(tag: &'static str, kind: ComponentKind, priority: i32, log: &Log) -> Probe {
    Probe { tag, kind, priority, log: log.clone() }
}

fn new_log() -> Log {
    Rc::new(RefCell::new(Vec::new()))
}

fn tags(e: &Entity<Probe>) -> Vec<&'static str> {
    (0..e.component_count()).map(|i| e.component_at(i).tag).collect()
}

fn entity_with(tag: &'static str, log: &Log) -> Entity<Probe> {
    let mut e = Entity::new();
    e.add_component(probe(tag, ComponentKind::Custom(0), component_priority::DEFAULT, log));
    e
}

#[test]
fn new_entity_is_detached_and_ticking() {
    let e: Entity<Probe> = Entity::new();
    assert_eq!(e.get_id(), 0);
    assert!(!e.is_in_play());
    assert!(e.is_ticking());
    assert_eq!(e.component_count(), 0);
}

#[test]
fn add_component_keeps_priority_order_and_insertion_order_within_priority() {
    let log = new_log();
    let mut e = Entity::new();
    e.add_component(probe("player", ComponentKind::Custom(1), component_priority::DEFAULT, &log));
    e.add_component(probe("image", ComponentKind::Image, component_priority::RENDER, &log));
    e.add_component(probe("input", ComponentKind::Input, component_priority::INPUT, &log));
    e.add_component(probe("ai", ComponentKind::Custom(2), component_priority::DEFAULT, &log));
    e.add_component(probe("transform", ComponentKind::Transform, component_priority::TRANSFORM, &log));
    e.add_component(probe("sound", ComponentKind::Custom(3), component_priority::DEFAULT, &log));
    assert_eq!(tags(&e), vec!["input", "transform", "player", "ai", "sound", "image"]);
    let priorities: Vec<i32> = (0..e.component_count()).map(|i| e.priority_at(i)).collect();
    assert_eq!(priorities, vec![-150, -100, 0, 0, 0, 100]);
    assert!(log.borrow().is_empty());
}

#[test]
fn hooks_run_in_priority_order() {
    let log = new_log();
    let mut e = Entity::new();
    e.add_component(probe("image", ComponentKind::Image, component_priority::RENDER, &log));
    e.add_component(probe("transform", ComponentKind::Transform, component_priority::TRANSFORM, &log));
    e.add_component(probe("input", ComponentKind::Input, component_priority::INPUT, &log));
    e.enter_play();
    assert!(e.is_in_play());
    e.exit_play();
    assert!(!e.is_in_play());
    assert_eq!(
        *log.borrow(),
        vec!["enter input", "enter transform", "enter image", "exit input", "exit transform", "exit image"]
    );
    let mut frame = Vec::new();
    e.tick(&mut frame);
    e.physics_tick(&mut frame);
    e.render_tick(&mut frame);
    assert_eq!(
        frame,
        vec![
            "tick input", "tick transform", "tick image",
            "physics input", "physics transform", "physics image",
            "render input", "render transform", "render image",
        ]
    );
}

#[test]
fn adding_to_a_live_entity_enters_the_component_first() {
    let log = new_log();
    let mut e = Entity::new();
    e.add_component(probe("a", ComponentKind::Custom(0), 0, &log));
    e.enter_play();
    e.add_component(probe("b", ComponentKind::Custom(0), -5, &log));
    assert_eq!(*log.borrow(), vec!["enter a", "enter b"]);
    assert_eq!(tags(&e), vec!["b", "a"]);
}

#[test]
fn get_component_finds_first_of_kind_or_nothing() {
    let log = new_log();
    let mut e = Entity::new();
    e.add_component(probe("late", ComponentKind::Transform, 5, &log));
    e.add_component(probe("early", ComponentKind::Transform, -5, &log));
    e.add_component(probe("pic", ComponentKind::Image, 100, &log));
    assert_eq!(e.get_component(ComponentKind::Transform).map(|c| c.tag), Some("early"));
    assert_eq!(e.get_component(ComponentKind::Image).map(|c| c.tag), Some("pic"));
    assert!(e.get_component(ComponentKind::Input).is_none());
    let found = e.get_component_mut(ComponentKind::Image).unwrap();
    found.tag = "picture";
    assert_eq!(e.get_component(ComponentKind::Image).map(|c| c.tag), Some("picture"));
    assert!(e.get_component_mut(ComponentKind::Custom(9)).is_none());
}

#[test]
fn set_id_and_ticking_flag() {
    let mut e: Entity<Probe> = Entity::new();
    e.set_id(42);
    e.set_is_ticking(false);
    assert_eq!(e.get_id(), 42);
    assert!(!e.is_ticking());
}

#[test]
fn spawn_assigns_sequential_ids_at_request_time() {
    let log = new_log();
    let mut s = EntitySpawner::new();
    assert_eq!(s.spawn_entity(entity_with("a", &log)), 0);
    assert_eq!(s.spawn_entity(entity_with("b", &log)), 1);
    assert_eq!(s.pending_count(), 2);
    assert_eq!(s.live_count(), 0);
    assert!(log.borrow().is_empty());
}

#[test]
fn resolve_admits_pending_entities_in_order_and_enters_them() {
    let log = new_log();
    let mut s = EntitySpawner::new();
    s.spawn_entity(entity_with("a", &log));
    s.spawn_entity(entity_with("b", &log));
    s.resolve_requests();
    assert_eq!(s.pending_count(), 0);
    assert_eq!(s.live_count(), 2);
    assert_eq!(s.live_at(0).get_id(), 0);
    assert_eq!(s.live_at(1).get_id(), 1);
    assert!(s.live_at(0).is_in_play());
    assert_eq!(*log.borrow(), vec!["enter a", "enter b"]);
    assert_eq!(s.entity_iter().count(), 2);
}

#[test]
fn destroying_a_pending_spawn_cancels_it() {
    let log = new_log();
    let mut s = EntitySpawner::new();
    let id = s.spawn_entity(entity_with("ghost", &log));
    s.destroy_entity(id);
    assert_eq!(s.pending_count(), 0);
    assert!(!s.is_marked_for_destroy(id));
    s.resolve_requests();
    s.resolve_requests();
    assert_eq!(s.live_count(), 0);
    assert!(log.borrow().is_empty());
    assert_eq!(s.spawn_entity(entity_with("next", &log)), id + 1);
}

#[test]
fn resolving_with_empty_buffers_changes_nothing() {
    let log = new_log();
    let mut s = EntitySpawner::new();
    s.spawn_entity(entity_with("a", &log));
    s.resolve_requests();
    let before = log.borrow().len();
    s.resolve_requests();
    assert_eq!(s.live_count(), 1);
    assert_eq!(s.pending_count(), 0);
    assert_eq!(log.borrow().len(), before);
    let mut empty: EntitySpawner<Probe> = EntitySpawner::new();
    empty.resolve_requests();
    assert_eq!(empty.live_count(), 0);
}

#[test]
fn destroying_a_live_entity_exits_and_removes_it_at_resolution() {
    let log = new_log();
    let mut s = EntitySpawner::new();
    let a = s.spawn_entity(entity_with("a", &log));
    s.spawn_entity(entity_with("b", &log));
    s.spawn_entity(entity_with("c", &log));
    s.resolve_requests();
    s.destroy_entity(a);
    assert!(s.is_marked_for_destroy(a));
    assert_eq!(s.live_count(), 3);
    s.resolve_requests();
    assert!(!s.is_marked_for_destroy(a));
    assert_eq!(s.live_count(), 2);
    assert_eq!(s.live_at(0).get_id(), 1);
    assert_eq!(s.live_at(1).get_id(), 2);
    assert_eq!(*log.borrow(), vec!["enter a", "enter b", "enter c", "exit a"]);
}

#[test]
fn spawn_and_destroy_marked_in_one_resolution_enters_then_exits() {
    let log = new_log();
    let mut s = EntitySpawner::new();
    s.destroy_entity(0);
    assert!(s.is_marked_for_destroy(0));
    s.spawn_entity(entity_with("a", &log));
    s.resolve_requests();
    assert_eq!(s.live_count(), 0);
    assert_eq!(*log.borrow(), vec!["enter a", "exit a"]);
}

#[test]
fn destroying_an_unknown_id_is_harmless() {
    let log = new_log();
    let mut s = EntitySpawner::new();
    s.spawn_entity(entity_with("a", &log));
    s.resolve_requests();
    s.destroy_entity(77);
    s.destroy_entity(77);
    s.resolve_requests();
    assert_eq!(s.live_count(), 1);
    assert!(!s.is_marked_for_destroy(77));
}

#[test]
fn fan_out_ticks_only_ticking_entities_but_renders_all() {
    let log = new_log();
    let mut s = EntitySpawner::new();
    let mut sleeper = entity_with("sleeper", &log);
    sleeper.set_is_ticking(false);
    s.spawn_entity(entity_with("awake", &log));
    s.spawn_entity(sleeper);
    s.resolve_requests();
    let mut frame = Vec::new();
    s.tick_entities(&mut frame);
    s.physics_tick_entities(&mut frame);
    s.render_tick_entities(&mut frame);
    assert_eq!(frame, vec!["tick awake", "physics awake", "render awake", "render sleeper"]);
}
