use raster::editor::keys::{self, Editor, Shortcuts};
use raster::input::{Action, Input, Key};

/// An input with the keys already down: `begin_frame` samples what is held,
/// so the order matters.
fn frame(held: &[Key]) -> Input {
    let mut input = Input::new(keys::bindings());
    for key in held {
        input.key_down(*key);
    }
    input.begin_frame();
    input
}

#[test]
fn ctrl_z_undoes() {
    let shortcuts = keys::read(&frame(&[Key::Control, Key::Z]));
    assert!(shortcuts.undo);
    assert!(!shortcuts.redo, "undo and redo must not go off together");
}

#[test]
fn z_alone_does_nothing() {
    let shortcuts = keys::read(&frame(&[Key::Z]));
    assert!(!shortcuts.undo);
    assert!(!shortcuts.redo);
}

#[test]
fn ctrl_y_redoes() {
    let shortcuts = keys::read(&frame(&[Key::Control, Key::Y]));
    assert!(shortcuts.redo);
    assert!(!shortcuts.undo);
}

#[test]
fn ctrl_shift_z_redoes_and_never_undoes() {
    let shortcuts = keys::read(&frame(&[Key::Control, Key::Shift, Key::Z]));
    assert!(shortcuts.redo);
    assert!(!shortcuts.undo);
}

#[test]
fn ctrl_s_saves() {
    assert!(keys::read(&frame(&[Key::Control, Key::S])).save);
    assert!(!keys::read(&frame(&[Key::S])).save, "S alone does not save");
}

#[test]
fn ctrl_o_opens() {
    assert!(keys::read(&frame(&[Key::Control, Key::O])).open);
}

#[test]
fn ctrl_d_duplicates() {
    assert!(keys::read(&frame(&[Key::Control, Key::D])).duplicate);
}

#[test]
fn delete_removes_without_a_modifier() {
    assert!(keys::read(&frame(&[Key::Delete])).delete);
    assert!(keys::read(&frame(&[Key::Backspace])).delete, "both keys");
    assert!(!keys::read(&frame(&[Key::Control, Key::Delete])).delete);
}

#[test]
fn g_and_h_toggle_the_grid() {
    assert!(keys::read(&frame(&[Key::G])).toggle_snap);
    assert!(keys::read(&frame(&[Key::H])).toggle_grid);
    assert!(!keys::read(&frame(&[Key::Control, Key::G])).toggle_snap);
}

#[test]
fn escape_quits_with_or_without_modifiers() {
    assert!(keys::read(&frame(&[Key::Escape])).quit);
    assert!(keys::read(&frame(&[Key::Control, Key::Escape])).quit);
}

#[test]
fn f5_plays_and_f6_pauses() {
    assert!(keys::read(&frame(&[Key::F5])).play);
    assert!(keys::read(&frame(&[Key::F6])).pause);
}

#[test]
fn nothing_pressed_asks_for_nothing() {
    assert_eq!(keys::read(&frame(&[])), Shortcuts::default());
}

#[test]
fn holding_the_modifier_alone_does_nothing() {
    assert_eq!(keys::read(&frame(&[Key::Control])), Shortcuts::default());
}

#[test]
fn the_editor_has_its_own_action_names() {
    assert_ne!(Editor::undo(), Action::jump());
    assert!(Editor::undo().0.starts_with("editor."));
}

#[test]
fn ctrl_with_z_and_y_at_once_asks_for_both() {
    let shortcuts = keys::read(&frame(&[Key::Control, Key::Z, Key::Y]));
    assert!(shortcuts.undo);
    assert!(shortcuts.redo);
}

#[test]
fn a_shortcut_fires_once_per_press() {
    let mut input = Input::new(keys::bindings());
    input.key_down(Key::Control);
    input.key_down(Key::S);
    input.begin_frame();
    assert!(keys::read(&input).save);

    // The key stays down: holding Ctrl+S must not save sixty times a second.
    input.begin_frame();
    assert!(!keys::read(&input).save, "the shortcut repeated");
}
