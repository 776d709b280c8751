use engine::path_utils::{get_input_settings_path, join};
use engine::render::RenderQueue;

#[test]
fn render_queue_is_first_in_first_out() {
    let mut q = RenderQueue::new();
    assert_eq!(q.dequeue(), None::<u32>);
    q.enqueue(1);
    q.enqueue(2);
    q.enqueue(3);
    assert_eq!(q.len(), 3);
    assert_eq!(q.dequeue(), Some(1));
    assert_eq!(q.drain(), vec![2, 3]);
    assert_eq!(q.len(), 0);
    assert_eq!(q.dequeue(), None);
}

#[test]
fn settings_path_sits_in_the_config_directory() {
    assert_eq!(get_input_settings_path("/opt/engine"), "/opt/engine/config/input_settings.json");
    assert_eq!(get_input_settings_path("/opt/engine/"), "/opt/engine/config/input_settings.json");
    assert_eq!(get_input_settings_path(""), "config/input_settings.json");
}

#[test]
fn join_adds_a_separator_only_when_needed() {
    assert_eq!(join("a", "b"), "a/b");
    assert_eq!(join("a/", "b"), "a/b");
    assert_eq!(join("", "b"), "b");
}
