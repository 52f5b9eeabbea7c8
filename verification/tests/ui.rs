use voxel_rs::ui::{Message, Ui, ESCAPE_KEY};

#[test]
fn menu_starts_hidden() {
    let ui = Ui::new();
    assert!(ui.should_update_camera());
    assert!(ui.should_capture_mouse());
    assert!(!ui.should_exit());
}

#[test]
fn escape_presses_toggle_the_menu() {
    let mut ui = Ui::new();
    ui.handle_key_state_changes(vec![(ESCAPE_KEY, true)]);
    assert!(!ui.should_update_camera());
    assert!(!ui.should_capture_mouse());
    // releases and other keys change nothing
    ui.handle_key_state_changes(vec![(ESCAPE_KEY, false), (17, true)]);
    assert!(!ui.should_capture_mouse());
    ui.handle_key_state_changes(vec![(ESCAPE_KEY, true), (ESCAPE_KEY, false), (ESCAPE_KEY, true)]);
    assert!(!ui.should_capture_mouse());
    ui.handle_key_state_changes(vec![(ESCAPE_KEY, true)]);
    assert!(ui.should_capture_mouse());
}

#[test]
fn resume_button_hides_the_menu() {
    let mut ui = Ui::new();
    ui.handle_key_state_changes(vec![(ESCAPE_KEY, true)]);
    ui.handle_messages(vec![Message::ExitMenu]);
    // messages wait for the next rebuild
    assert!(!ui.should_update_camera());
    assert!(!ui.rebuild());
    assert!(ui.should_update_camera());
    assert!(!ui.should_exit());
}

#[test]
fn exit_button_asks_to_exit() {
    let mut ui = Ui::new();
    ui.handle_key_state_changes(vec![(ESCAPE_KEY, true)]);
    ui.handle_messages(vec![Message::ExitGame]);
    assert!(!ui.should_exit());
    assert!(ui.rebuild());
    assert!(ui.should_exit());
    // applied messages are gone: a second rebuild changes nothing
    assert!(ui.rebuild());
    assert!(ui.should_exit());
}
