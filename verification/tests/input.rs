use voxel_rs::input::{
    ElementState, InputState, KeyInput, MouseButton, MOVE_FORWARD, MOVE_LEFT, MOVE_UP, TOGGLE_CULLING, TOGGLE_FLIGHT,
};

#[test]
fn new_input_state_flies_with_culling() {
    let s = InputState::new();
    assert!(s.enable_culling());
    assert_eq!(s.get_key_state(MOVE_FORWARD), ElementState::Released);
    let k = s.get_physics_input(true);
    assert!(k.flying);
    assert!(!k.key_move_forward);
}

#[test]
fn keyboard_input_reports_changes() {
    let mut s = InputState::new();
    assert!(s.process_keyboard_input(MOVE_FORWARD, ElementState::Pressed));
    assert!(!s.process_keyboard_input(MOVE_FORWARD, ElementState::Pressed));
    assert_eq!(s.get_key_state(MOVE_FORWARD), ElementState::Pressed);
    assert!(s.process_keyboard_input(MOVE_FORWARD, ElementState::Released));
    assert_eq!(s.get_key_state(MOVE_FORWARD), ElementState::Released);
    // a key never seen changes when first released
    assert!(s.process_keyboard_input(MOVE_LEFT, ElementState::Released));
}

#[test]
fn releasing_toggle_keys_switches_flight_and_culling() {
    let mut s = InputState::new();
    s.process_keyboard_input(TOGGLE_FLIGHT, ElementState::Pressed);
    assert!(s.get_physics_input(true).flying);
    s.process_keyboard_input(TOGGLE_FLIGHT, ElementState::Released);
    assert!(!s.get_physics_input(true).flying);
    s.process_keyboard_input(TOGGLE_CULLING, ElementState::Pressed);
    s.process_keyboard_input(TOGGLE_CULLING, ElementState::Pressed);
    assert!(!s.enable_culling());
    // a release that follows a release toggles nothing
    s.process_keyboard_input(TOGGLE_CULLING, ElementState::Released);
    s.process_keyboard_input(TOGGLE_CULLING, ElementState::Released);
    assert!(s.enable_culling());
}

#[test]
fn mouse_input_reports_changes() {
    let mut s = InputState::new();
    assert!(s.process_mouse_input(ElementState::Pressed, MouseButton::Left));
    assert!(!s.process_mouse_input(ElementState::Pressed, MouseButton::Left));
    assert!(s.process_mouse_input(ElementState::Pressed, MouseButton::Other(0)));
    assert!(s.process_mouse_input(ElementState::Released, MouseButton::Left));
    s.clear();
    assert!(s.process_mouse_input(ElementState::Released, MouseButton::Left));
}

#[test]
fn physics_input_follows_held_keys() {
    let mut s = InputState::new();
    s.process_keyboard_input(MOVE_FORWARD, ElementState::Pressed);
    s.process_keyboard_input(MOVE_UP, ElementState::Pressed);
    s.set_modifiers_state(4);
    let k = s.get_physics_input(true);
    assert_eq!(
        k,
        KeyInput {
            key_move_forward: true,
            key_move_left: false,
            key_move_backward: false,
            key_move_right: false,
            key_move_up: true,
            key_move_down: false,
            flying: true,
        }
    );
    // with the menu open nothing moves
    let k = s.get_physics_input(false);
    assert!(!k.key_move_forward && !k.key_move_up);
    s.clear();
    assert!(!s.get_physics_input(true).key_move_forward);
}
