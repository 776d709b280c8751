use std::cell::RefCell;
use std::rc::Rc;

use engine::component::{AsAny, ComponentKind};
use engine::component_priority;
use engine::input::{
    ActionConfig, AxisConfig, AxisDrive, Input, InputConfig, InputError, InputEventType,
    InputFrame, InputMappings,
};
use engine::input_component::{InputComponent, INVALID_BINDING_ID};
use engine::key_table::{Key, KeyTable};

const KEY_A: Key = 4;
const KEY_D: Key = 7;
const KEY_W: Key = 26;
const KEY_SPACE: Key = 44;
const KEY_RETURN: Key = 40;

fn table() -> KeyTable {
    let mut t = KeyTable::new();
    t.insert("A".to_string(), KEY_A);
    t.insert("D".to_string(), KEY_D);
    t.insert("W".to_string(), KEY_W);
    t.insert("SPACE".to_string(), KEY_SPACE);
    t.insert("RETURN".to_string(), KEY_RETURN);
    t
}

fn names(keys: &[&str]) -> Vec<String> {
    keys.iter().map(|k| k.to_string()).collect()
}

fn action(name: &str, keys: &[&str]) -> ActionConfig {
    ActionConfig { name: name.to_string(), keys: names(keys) }
}

fn axis(name: &str, positive: &[&str], negative: &[&str]) -> AxisConfig {
    AxisConfig { name: name.to_string(), positive: names(positive), negative: names(negative) }
}

fn keyboard(down: &[Key]) -> Vec<bool> {
    let mut kb = vec![false; 64];
    for k in down {
        kb[*k as usize] = true;
    }
    kb
}

fn action_events(frame: &InputFrame) -> Vec<(String, InputEventType)> {
    frame.actions.iter().map(|e| (e.action.clone(), e.ev_type)).collect()
}

fn mapper(config: InputConfig) -> Input {
    match InputMappings::from_config(config, &table()) {
        Ok(m) => Input::new(m),
        Err(_) => panic!("configuration should load"),
    }
}

#[test]
fn key_table_resolves_names_and_takes_the_latest_key() {
    let mut t = table();
    assert_eq!(t.lookup(&"D".to_string()), Some(KEY_D));
    assert_eq!(t.lookup(&"d".to_string()), None);
    t.insert("D".to_string(), 99);
    assert_eq!(t.lookup(&"D".to_string()), Some(99));
}

#[test]
fn unknown_key_name_fails_the_load() {
    let config = InputConfig {
        action_mappings: vec![action("jump", &["SPACE"])],
        axis_mappings: vec![axis("horizontal", &["D"], &["LEFT_ARROW"])],
    };
    match InputMappings::from_config(config, &table()) {
        Err(InputError::UnknownKey(name)) => assert_eq!(name, "LEFT_ARROW"),
        Ok(_) => panic!("an unknown key must fail the load"),
    }
    let config = InputConfig {
        action_mappings: vec![action("jump", &["SPAC"])],
        axis_mappings: vec![],
    };
    assert!(matches!(
        InputMappings::from_config(config, &table()),
        Err(InputError::UnknownKey(ref n)) if n == "SPAC"
    ));
}

#[test]
fn config_compiles_to_keys_in_order() {
    let config = InputConfig {
        action_mappings: vec![action("jump", &["SPACE", "W"])],
        axis_mappings: vec![axis("horizontal", &["D"], &["A"])],
    };
    let m = match InputMappings::from_config(config, &table()) {
        Ok(m) => m,
        Err(_) => panic!("configuration should load"),
    };
    assert_eq!(m.actions.len(), 1);
    assert_eq!(m.actions[0].name, "jump");
    assert_eq!(m.actions[0].keys, vec![KEY_SPACE, KEY_W]);
    assert_eq!(m.axes[0].name, "horizontal");
    assert_eq!(m.axes[0].positive, vec![KEY_D]);
    assert_eq!(m.axes[0].negative, vec![KEY_A]);
}

#[test]
fn relevant_keys_are_the_union_without_repeats() {
    let config = InputConfig {
        action_mappings: vec![action("jump", &["SPACE", "W"]), action("confirm", &["RETURN", "SPACE"])],
        axis_mappings: vec![axis("horizontal", &["D"], &["A"]), axis("vertical", &["W"], &[])],
    };
    let m = match InputMappings::from_config(config, &table()) {
        Ok(m) => m,
        Err(_) => panic!("configuration should load"),
    };
    let mut keys = m.relevant_keys();
    keys.sort();
    assert_eq!(keys, vec![KEY_A, KEY_D, KEY_W, KEY_RETURN, KEY_SPACE]);
}

#[test]
fn action_press_hold_release_gives_one_edge_each() {
    let mut input = mapper(InputConfig {
        action_mappings: vec![action("jump", &["SPACE"])],
        axis_mappings: vec![],
    });
    let f = input.tick(&keyboard(&[]));
    assert!(f.actions.is_empty());
    let f = input.tick(&keyboard(&[KEY_SPACE]));
    assert_eq!(action_events(&f), vec![("jump".to_string(), InputEventType::Pressed)]);
    let f = input.tick(&keyboard(&[KEY_SPACE]));
    assert!(f.actions.is_empty());
    let f = input.tick(&keyboard(&[]));
    assert_eq!(action_events(&f), vec![("jump".to_string(), InputEventType::Released)]);
}

#[test]
fn two_keys_of_one_action_changing_together_give_two_edges() {
    let mut input = mapper(InputConfig {
        action_mappings: vec![action("jump", &["SPACE", "W"])],
        axis_mappings: vec![],
    });
    let f = input.tick(&keyboard(&[KEY_SPACE, KEY_W]));
    assert_eq!(
        action_events(&f),
        vec![("jump".to_string(), InputEventType::Pressed), ("jump".to_string(), InputEventType::Pressed)]
    );
}

#[test]
fn keys_outside_the_mapping_or_the_snapshot_are_ignored() {
    let mut input = mapper(InputConfig {
        action_mappings: vec![action("jump", &["SPACE"])],
        axis_mappings: vec![],
    });
    let f = input.tick(&keyboard(&[KEY_A, KEY_D]));
    assert!(f.actions.is_empty());
    let f = input.tick(&vec![false; 10]);
    assert!(f.actions.is_empty());
}

#[test]
fn axis_drive_follows_the_held_directions_every_frame() {
    let mut input = mapper(InputConfig {
        action_mappings: vec![],
        axis_mappings: vec![axis("horizontal", &["D"], &["A"])],
    });
    let drives: Vec<AxisDrive> = [
        vec![KEY_D],
        vec![KEY_D],
        vec![KEY_A, KEY_D],
        vec![KEY_A],
        vec![],
    ]
    .iter()
    .map(|down| {
        let f = input.tick(&keyboard(down));
        assert_eq!(f.axes.len(), 1);
        assert_eq!(f.axes[0].axis, "horizontal");
        f.axes[0].drive
    })
    .collect();
    assert_eq!(
        drives,
        vec![AxisDrive::Increase, AxisDrive::Increase, AxisDrive::Settle, AxisDrive::Decrease, AxisDrive::Settle]
    );
}

type Handler = Box<dyn Fn(f32)>;

#[test]
fn unbinding_one_axis_handler_keeps_the_other() {
    let seen = Rc::new(RefCell::new(Vec::new()));
    let mut comp: InputComponent<Handler> = InputComponent::new();
    let first = seen.clone();
    let second = seen.clone();
    let id1 = comp.bind_axis("horizontal", Box::new(move |v| first.borrow_mut().push(("first", v))));
    let id2 = comp.bind_axis("horizontal", Box::new(move |v| second.borrow_mut().push(("second", v))));
    assert_ne!(id1, id2);
    for h in comp.on_input_event("horizontal", InputEventType::Axis) {
        h(0.5);
    }
    comp.unbind_axis("horizontal", id1);
    for h in comp.on_input_event("horizontal", InputEventType::Axis) {
        h(0.25);
    }
    assert_eq!(*seen.borrow(), vec![("first", 0.5), ("second", 0.5), ("second", 0.25)]);
}

#[test]
fn handlers_receive_only_their_name_and_kind() {
    let mut comp: InputComponent<&'static str> = InputComponent::new();
    comp.bind_action("jump", InputEventType::Pressed, "jump down");
    comp.bind_action("jump", InputEventType::Released, "jump up");
    comp.bind_axis("jump", "jump axis");
    comp.bind_action("fire", InputEventType::Pressed, "fire down");
    let got: Vec<&str> = comp.on_input_event("jump", InputEventType::Pressed).into_iter().copied().collect();
    assert_eq!(got, vec!["jump down"]);
    assert!(comp.on_input_event("walk", InputEventType::Pressed).is_empty());
}

#[test]
fn binding_ids_count_up_and_axis_kind_action_binds_nothing() {
    let mut comp: InputComponent<u8> = InputComponent::new();
    assert_eq!(comp.bind_axis("h", 1), 0);
    assert_eq!(comp.bind_action("jump", InputEventType::Axis, 2), 1);
    assert_eq!(comp.bind_action("jump", InputEventType::Pressed, 3), 2);
    assert!(comp.on_input_event("jump", InputEventType::Axis).is_empty());
    assert_ne!(INVALID_BINDING_ID, 0);
}

#[test]
fn unbind_action_removes_both_edges_of_that_id_only() {
    let mut comp: InputComponent<u8> = InputComponent::new();
    let a = comp.bind_action("jump", InputEventType::Pressed, 1);
    comp.bind_action("jump", InputEventType::Released, 2);
    comp.bind_axis("jump", 3);
    comp.unbind_action("jump", a);
    assert!(comp.on_input_event("jump", InputEventType::Pressed).is_empty());
    assert_eq!(comp.on_input_event("jump", InputEventType::Released).len(), 1);
    comp.unbind_axis("jump", a);
    assert_eq!(comp.on_input_event("jump", InputEventType::Axis).len(), 1);
    comp.clear_all_bindings();
    assert!(comp.on_input_event("jump", InputEventType::Axis).is_empty());
    assert!(comp.on_input_event("jump", InputEventType::Released).is_empty());
    assert_eq!(comp.bind_axis("h", 9), 3);
}

#[test]
fn input_component_runs_first_and_reports_its_kind() {
    let comp: InputComponent<u8> = InputComponent::new();
    assert_eq!(comp.get_priority(), component_priority::INPUT);
    assert_eq!(comp.as_any(), ComponentKind::Input);
    assert!(component_priority::INPUT < component_priority::TRANSFORM);
    assert!(component_priority::TRANSFORM < component_priority::DEFAULT);
    assert!(component_priority::DEFAULT < component_priority::RENDER);
}

#[test]
fn unbind_all_axis_clears_that_axis_only() {
    let mut comp: InputComponent<u8> = InputComponent::new();
    comp.bind_axis("horizontal", 1);
    comp.bind_axis("horizontal", 2);
    comp.bind_axis("vertical", 3);
    comp.bind_action("horizontal", InputEventType::Pressed, 4);
    comp.unbind_all_axis("horizontal");
    assert!(comp.on_input_event("horizontal", InputEventType::Axis).is_empty());
    let vertical: Vec<u8> = comp.on_input_event("vertical", InputEventType::Axis).into_iter().copied().collect();
    assert_eq!(vertical, vec![3]);
    assert_eq!(comp.on_input_event("horizontal", InputEventType::Pressed).len(), 1);
}

#[test]
fn unbind_all_actions_clears_one_edge_kind() {
    let mut comp: InputComponent<u8> = InputComponent::new();
    comp.bind_action("jump", InputEventType::Pressed, 1);
    comp.bind_action("jump", InputEventType::Pressed, 2);
    comp.bind_action("jump", InputEventType::Released, 3);
    comp.bind_axis("jump", 4);
    comp.unbind_all_actions("jump", InputEventType::Pressed);
    assert!(comp.on_input_event("jump", InputEventType::Pressed).is_empty());
    assert_eq!(comp.on_input_event("jump", InputEventType::Released).len(), 1);
    comp.unbind_all_actions("jump", InputEventType::Axis);
    assert_eq!(comp.on_input_event("jump", InputEventType::Axis).len(), 1);
    assert_eq!(comp.on_input_event("jump", InputEventType::Released).len(), 1);
    assert_eq!(comp.next_binding_id(), 4);
}

#[test]
fn config_names_must_be_distinct_per_kind() {
    let ok = InputConfig {
        action_mappings: vec![action("jump", &["SPACE"]), action("fire", &["RETURN"])],
        axis_mappings: vec![axis("jump", &["D"], &["A"])],
    };
    assert!(ok.has_distinct_names());
    let twice = InputConfig {
        action_mappings: vec![action("jump", &["SPACE"]), action("jump", &["W"])],
        axis_mappings: vec![],
    };
    assert!(!twice.has_distinct_names());
    let axes_twice = InputConfig {
        action_mappings: vec![],
        axis_mappings: vec![axis("h", &["D"], &[]), axis("h", &["A"], &[])],
    };
    assert!(!axes_twice.has_distinct_names());
}
