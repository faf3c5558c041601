use raster::editor::keys::{self, Editor, Shortcuts};
use raster::editor::{Command, History, PlayState as State};
use raster::input::{Binding, Input, Key};

#[test]
fn the_state_says_what_it_is() {
    assert!(State::Playing.running());
    assert!(!State::Paused.running());
    assert!(State::Paused.in_session());
    assert!(!State::Editing.in_session());
}

#[test]
fn each_state_has_its_label() {
    assert_eq!(State::Editing.label(), "edition");
    assert_eq!(State::Playing.label(), "en cours");
    assert_eq!(State::Paused.label(), "en pause");
    assert_eq!(State::default(), State::Editing);
}

/// A list of numbers, changed one push at a time.
#[derive(Default)]
struct Scene {
    items: Vec<i32>,
}

struct Add(i32);

impl Command for Add {
    type Target = Scene;

    fn apply(&mut self, target: &mut Scene) {
        target.items.push(self.0);
    }

    fn revert(&mut self, target: &mut Scene) {
        target.items.pop();
    }

    fn label(&self) -> String {
        format!("add {}", self.0)
    }

    fn merge(&mut self, _other: &Self) -> bool {
        false
    }
}

#[test]
fn a_fresh_history_is_clean() {
    assert!(!History::<Add>::new().is_dirty());
}

#[test]
fn undo_then_redo_gives_back_the_same_scene() {
    let mut scene = Scene::default();
    let mut history: History<Add> = History::new();

    history.push(Add(1), &mut scene);
    history.break_merge();
    history.push(Add(2), &mut scene);
    assert_eq!(scene.items, vec![1, 2]);
    assert_eq!(history.depth(), 2);

    assert!(history.undo(&mut scene));
    assert_eq!(scene.items, vec![1]);
    assert_eq!(history.redo_label().as_deref(), Some("add 2"));

    assert!(history.redo(&mut scene));
    assert_eq!(scene.items, vec![1, 2]);
    assert!(!history.redo(&mut scene));
    assert_eq!(history.labels(), vec!["add 1".to_owned(), "add 2".to_owned()]);
}

#[test]
fn a_new_command_forgets_what_was_undone() {
    let mut scene = Scene::default();
    let mut history: History<Add> = History::new();

    history.push(Add(1), &mut scene);
    history.undo(&mut scene);
    assert!(history.can_redo());
    history.push(Add(3), &mut scene);
    assert!(!history.can_redo());
    assert_eq!(scene.items, vec![3]);
}

#[test]
fn saving_makes_the_history_clean_until_the_next_change() {
    let mut scene = Scene::default();
    let mut history: History<Add> = History::new();

    history.push(Add(1), &mut scene);
    assert!(history.is_dirty());
    history.mark_saved();
    assert!(!history.is_dirty());
    history.undo(&mut scene);
    assert!(history.is_dirty());
    history.redo(&mut scene);
    assert!(!history.is_dirty());
}

#[test]
fn the_history_keeps_at_most_its_limit() {
    let mut scene = Scene::default();
    let mut history: History<Add> = History::new().with_limit(2);

    for i in 0..5 {
        history.push(Add(i), &mut scene);
        history.break_merge();
    }
    assert_eq!(history.depth(), 2);
    assert_eq!(history.undo_label().as_deref(), Some("add 4"));
    history.clear();
    assert!(!history.can_undo());
}

fn editor_input() -> Input {
    Input::new(keys::bindings())
}

#[test]
fn ctrl_z_undoes_and_ctrl_shift_z_redoes() {
    let mut input = editor_input();
    input.key_down(Key::Control);
    input.key_down(Key::Z);
    input.begin_frame();
    let shortcuts = keys::read(&input);
    assert!(shortcuts.undo);
    assert!(!shortcuts.redo);

    let mut input = editor_input();
    input.key_down(Key::Control);
    input.key_down(Key::Shift);
    input.key_down(Key::Z);
    input.begin_frame();
    let shortcuts = keys::read(&input);
    assert!(!shortcuts.undo);
    assert!(shortcuts.redo);
}

#[test]
fn delete_is_a_direct_key() {
    let mut input = editor_input();
    input.key_down(Key::Backspace);
    input.begin_frame();
    let shortcuts = keys::read(&input);
    assert_eq!(
        shortcuts,
        Shortcuts {
            delete: true,
            ..Shortcuts::default()
        }
    );

    let mut input = editor_input();
    input.key_down(Key::Control);
    input.key_down(Key::Delete);
    input.begin_frame();
    assert!(!keys::read(&input).delete);
}

#[test]
fn the_editor_binds_its_own_actions() {
    let bindings = keys::bindings();
    assert_eq!(
        bindings.bindings_for(&Editor::delete()),
        &[Binding::Key(Key::Delete), Binding::Key(Key::Backspace)]
    );
    assert_eq!(bindings.bindings_for(&Editor::save()), &[Binding::Key(Key::S)]);
    assert_eq!(bindings.actions().len(), 13);
}

use raster::editor::PlaySession;

#[test]
fn a_game_starts_once_and_stops_back_to_editing() {
    let mut session = PlaySession::new();
    assert_eq!(session.state(), State::Editing);
    assert!(!session.has_snapshot());

    assert!(session.start(), "the first start captures the world");
    assert_eq!(session.state(), State::Playing);
    assert!(session.has_snapshot());
    assert!(!session.start(), "starting again would lose the capture");

    assert!(session.tick());
    assert!(session.tick());
    assert_eq!(session.steps(), 2);

    session.toggle_pause();
    assert_eq!(session.state(), State::Paused);
    assert!(!session.tick(), "a paused game does not advance");
    assert_eq!(session.steps(), 2);
    session.toggle_pause();
    assert_eq!(session.state(), State::Playing);

    assert!(session.stop(), "stopping puts the world back");
    assert_eq!(session.state(), State::Editing);
    assert!(!session.stop(), "nothing to put back twice");
    session.toggle_pause();
    assert_eq!(session.state(), State::Editing, "editing has no pause");
    assert!(!session.tick());
}
