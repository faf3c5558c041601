use raster::editor::{Command, History};

/// A toy world: a list of numbers.
#[derive(Debug, Default)]
struct Scene {
    values: Vec<i32>,
}

/// Adds a value, which never merges, or moves the last one, which does: a
/// drag is one entry.
#[derive(Debug)]
enum Edit {
    Add(i32),
    Move { from: i32, to: i32 },
}

impl Command for Edit {
    type Target = Scene;

    fn apply(&mut self, scene: &mut Scene) {
        match self {
            Edit::Add(v) => scene.values.push(*v),
            Edit::Move { to, .. } => {
                if let Some(last) = scene.values.last_mut() {
                    *last = *to;
                }
            }
        }
    }

    fn revert(&mut self, scene: &mut Scene) {
        match self {
            Edit::Add(_) => {
                scene.values.pop();
            }
            Edit::Move { from, .. } => {
                if let Some(last) = scene.values.last_mut() {
                    *last = *from;
                }
            }
        }
    }

    fn label(&self) -> String {
        match self {
            Edit::Add(v) => format!("Ajoute {v}"),
            Edit::Move { to, .. } => format!("Deplace vers {to}"),
        }
    }

    fn merge(&mut self, other: &Self) -> bool {
        match (self, other) {
            (Edit::Move { to, .. }, Edit::Move { to: next, .. }) => {
                *to = *next;
                true
            }
            _ => false,
        }
    }
}

#[test]
fn a_command_applies_when_pushed() {
    let mut scene = Scene::default();
    let mut history = History::new();
    history.push(Edit::Add(5), &mut scene);
    assert_eq!(scene.values, [5]);
    assert!(history.can_undo());
}

#[test]
fn undoing_puts_things_back() {
    let mut scene = Scene::default();
    let mut history = History::new();
    history.push(Edit::Add(1), &mut scene);
    history.push(Edit::Add(2), &mut scene);
    assert!(history.undo(&mut scene));
    assert_eq!(scene.values, [1]);
    assert!(history.can_redo());
}

#[test]
fn undoing_an_empty_history_does_nothing() {
    let mut scene = Scene::default();
    let mut history: History<Edit> = History::new();
    assert!(!history.undo(&mut scene));
    assert!(scene.values.is_empty());
}

#[test]
fn redoing_reapplies_what_was_undone() {
    let mut scene = Scene::default();
    let mut history = History::new();
    history.push(Edit::Add(1), &mut scene);
    history.undo(&mut scene);
    assert!(history.redo(&mut scene));
    assert_eq!(scene.values, [1]);
    assert!(!history.can_redo());
}

#[test]
fn a_new_command_erases_what_could_be_redone() {
    let mut scene = Scene::default();
    let mut history = History::new();
    history.push(Edit::Add(1), &mut scene);
    history.push(Edit::Add(2), &mut scene);
    history.undo(&mut scene);
    history.push(Edit::Add(3), &mut scene);
    assert!(!history.can_redo());
    assert_eq!(scene.values, [1, 3]);
}

#[test]
fn a_drag_collapses_into_one_entry() {
    let mut scene = Scene::default();
    let mut history = History::new();

    history.push(Edit::Add(0), &mut scene);
    for to in [10, 20, 30] {
        history.push(Edit::Move { from: 0, to }, &mut scene);
    }

    assert_eq!(scene.values, [30]);
    assert_eq!(history.depth(), 2, "the drag must be one entry, not three");

    history.undo(&mut scene);
    assert_eq!(scene.values, [0]);
}

#[test]
fn breaking_the_window_separates_two_gestures() {
    let mut scene = Scene::default();
    let mut history = History::new();

    history.push(Edit::Add(0), &mut scene);
    history.push(Edit::Move { from: 0, to: 10 }, &mut scene);
    history.break_merge();
    history.push(Edit::Move { from: 10, to: 20 }, &mut scene);

    assert_eq!(history.depth(), 3, "two gestures make two entries");
}

#[test]
fn commands_that_do_not_merge_never_collapse() {
    let mut scene = Scene::default();
    let mut history = History::new();
    for i in 0..3 {
        history.push(Edit::Add(i), &mut scene);
    }
    assert_eq!(history.depth(), 3);
}

#[test]
fn the_history_forgets_the_oldest_beyond_its_limit() {
    let mut scene = Scene::default();
    let mut history = History::new().with_limit(3);
    for i in 0..5 {
        history.push(Edit::Add(i), &mut scene);
    }
    assert_eq!(history.depth(), 3);
    assert_eq!(history.labels(), ["Ajoute 2", "Ajoute 3", "Ajoute 4"]);
}

#[test]
fn labels_say_what_would_be_undone() {
    let mut scene = Scene::default();
    let mut history = History::new();

    assert_eq!(history.undo_label(), None);
    history.push(Edit::Add(7), &mut scene);
    assert_eq!(history.undo_label().as_deref(), Some("Ajoute 7"));
    history.undo(&mut scene);
    assert_eq!(history.redo_label().as_deref(), Some("Ajoute 7"));
}

#[test]
fn a_change_makes_the_project_dirty() {
    let mut scene = Scene::default();
    let mut history = History::new();
    history.push(Edit::Add(1), &mut scene);
    assert!(history.is_dirty());
    history.mark_saved();
    assert!(!history.is_dirty());
}

#[test]
fn undoing_back_to_the_saved_state_is_clean_again() {
    let mut scene = Scene::default();
    let mut history = History::new();
    history.push(Edit::Add(1), &mut scene);
    history.mark_saved();
    history.push(Edit::Add(2), &mut scene);
    assert!(history.is_dirty());
    history.undo(&mut scene);
    assert!(!history.is_dirty());
}

#[test]
fn clearing_resets_everything() {
    let mut scene = Scene::default();
    let mut history = History::new();
    history.push(Edit::Add(1), &mut scene);
    history.clear();
    assert!(!history.can_undo());
    assert!(!history.can_redo());
    assert!(!history.is_dirty());
}

#[test]
fn the_saved_mark_follows_what_the_limit_forgets() {
    let mut scene = Scene::default();
    let mut history = History::new().with_limit(3);

    history.push(Edit::Add(1), &mut scene);
    history.mark_saved();
    for i in 2..=5 {
        history.push(Edit::Add(i), &mut scene);
    }

    assert_eq!(history.depth(), 3);
    assert!(history.is_dirty());

    let mut cleanliness = Vec::new();
    while history.can_undo() {
        history.undo(&mut scene);
        cleanliness.push((history.depth(), history.is_dirty()));
    }

    assert_eq!(cleanliness, [(2, true), (1, true), (0, false)]);
}

#[test]
fn a_new_change_over_an_undone_save_stays_dirty() {
    let mut scene = Scene::default();
    let mut history = History::new();
    history.push(Edit::Add(1), &mut scene);
    history.push(Edit::Add(2), &mut scene);
    history.mark_saved();
    history.undo(&mut scene);
    history.push(Edit::Add(3), &mut scene);
    // Back at the saved depth, but [1, 3] is not the saved [1, 2].
    assert_eq!(history.depth(), 2);
    assert_eq!(scene.values, [1, 3]);
    assert!(history.is_dirty());
    history.mark_saved();
    assert!(!history.is_dirty());
}

#[test]
fn a_drag_merged_after_the_save_is_dirty() {
    let mut scene = Scene::default();
    let mut history = History::new();
    history.push(Edit::Add(0), &mut scene);
    history.push(Edit::Move { from: 0, to: 1 }, &mut scene);
    history.mark_saved();
    history.push(Edit::Move { from: 1, to: 2 }, &mut scene);
    assert_eq!(history.depth(), 2);
    assert!(history.is_dirty());
}
