use ghg::equality::differs;
use ghg::uniform::UniformValueTracker;

#[test]
fn test_first_write_to_a_uniform_is_a_change() {
    let mut tracker = UniformValueTracker::<i32>::new();
    assert!(tracker.update(0, &"u_model".to_owned(), 3));
}

#[test]
fn test_same_value_again_is_no_change() {
    let mut tracker = UniformValueTracker::<i32>::new();
    let name = "s_textureMap".to_owned();
    assert!(tracker.update(1, &name, 3));
    assert!(!tracker.update(1, &name, 3));
    assert!(!tracker.update(1, &name, 3));
}

#[test]
fn test_other_value_is_a_change_and_is_remembered() {
    let mut tracker = UniformValueTracker::<i32>::new();
    let name = "s_colorMap".to_owned();
    assert!(tracker.update(1, &name, 3));
    assert!(tracker.update(1, &name, 4));
    assert!(!tracker.update(1, &name, 4));
    assert!(tracker.update(1, &name, 3));
}

#[test]
fn test_uniforms_are_told_apart_by_shader_and_by_name() {
    let mut tracker = UniformValueTracker::<i32>::new();
    let view = "u_view".to_owned();
    let model = "u_model".to_owned();
    assert!(tracker.update(0, &view, 1));
    assert!(tracker.update(1, &view, 1));
    assert!(tracker.update(0, &model, 1));
    assert!(!tracker.update(0, &view, 1));
    assert!(!tracker.update(1, &view, 1));
    assert!(!tracker.update(0, &model, 1));
    assert!(tracker.update(1, &view, 2));
    assert!(!tracker.update(0, &view, 1));
}

#[test]
fn test_differs() {
    assert!(differs(&1, &2));
    assert!(!differs(&"same", &"same"));
}
