//! The editor's shortcuts: its own actions, their keys, and how a frame's
//! input reads as commands.

use crate::input::{Action, Binding, Bindings, Input, Key};
use vstd::prelude::*;

verus! {

/// The editor's own actions, apart from the game's: an editor has no jump, and
/// borrowing gameplay keys made shortcuts unreadable.
pub struct Editor;

impl Editor {
    pub fn undo() -> (a: Action)
        ensures
            a.0@ == "editor.undo"@,
    {
        Action("editor.undo")
    }

    pub fn redo() -> (a: Action)
        ensures
            a.0@ == "editor.redo"@,
    {
        Action("editor.redo")
    }

    pub fn save() -> (a: Action)
        ensures
            a.0@ == "editor.save"@,
    {
        Action("editor.save")
    }

    pub fn open() -> (a: Action)
        ensures
            a.0@ == "editor.open"@,
    {
        Action("editor.open")
    }

    pub fn delete() -> (a: Action)
        ensures
            a.0@ == "editor.delete"@,
    {
        Action("editor.delete")
    }

    pub fn duplicate() -> (a: Action)
        ensures
            a.0@ == "editor.duplicate"@,
    {
        Action("editor.duplicate")
    }

    /// Toggles snapping to the grid.
    pub fn snap() -> (a: Action)
        ensures
            a.0@ == "editor.snap"@,
    {
        Action("editor.snap")
    }

    /// Shows or hides the grid.
    pub fn grid() -> (a: Action)
        ensures
            a.0@ == "editor.grid"@,
    {
        Action("editor.grid")
    }

    /// The modifier: what tells undo from a plain key.
    pub fn modifier() -> (a: Action)
        ensures
            a.0@ == "editor.modifier"@,
    {
        Action("editor.modifier")
    }

    /// The second modifier, for redo.
    pub fn shift() -> (a: Action)
        ensures
            a.0@ == "editor.shift"@,
    {
        Action("editor.shift")
    }

    pub fn quit() -> (a: Action)
        ensures
            a.0@ == "editor.quit"@,
    {
        Action("editor.quit")
    }

    /// Starts or stops the game.
    pub fn play() -> (a: Action)
        ensures
            a.0@ == "editor.play"@,
    {
        Action("editor.play")
    }

    /// Pauses the game.
    pub fn pause() -> (a: Action)
        ensures
            a.0@ == "editor.pause"@,
    {
        Action("editor.pause")
    }
}

/// The editor's key bindings: the usual ones, Ctrl+Z, Ctrl+S, Delete, so that
/// nothing has to be learnt again.
pub fn bindings() -> (b: Bindings)
    ensures
        b.wf(),
        b.bound("editor.modifier"@) == seq![Binding::Key(Key::Control)],
        b.bound("editor.shift"@) == seq![Binding::Key(Key::Shift)],
        b.bound("editor.undo"@) == seq![Binding::Key(Key::Z)],
        b.bound("editor.redo"@) == seq![Binding::Key(Key::Y)],
        b.bound("editor.save"@) == seq![Binding::Key(Key::S)],
        b.bound("editor.open"@) == seq![Binding::Key(Key::O)],
        b.bound("editor.duplicate"@) == seq![Binding::Key(Key::D)],
        b.bound("editor.delete"@) == seq![Binding::Key(Key::Delete), Binding::Key(Key::Backspace)],
        b.bound("editor.snap"@) == seq![Binding::Key(Key::G)],
        b.bound("editor.grid"@) == seq![Binding::Key(Key::H)],
        b.bound("editor.quit"@) == seq![Binding::Key(Key::Escape)],
        b.bound("editor.play"@) == seq![Binding::Key(Key::F5)],
        b.bound("editor.pause"@) == seq![Binding::Key(Key::F6)],
        b.names() == seq![
            "editor.modifier"@,
            "editor.shift"@,
            "editor.undo"@,
            "editor.redo"@,
            "editor.save"@,
            "editor.open"@,
            "editor.duplicate"@,
            "editor.delete"@,
            "editor.snap"@,
            "editor.grid"@,
            "editor.quit"@,
            "editor.play"@,
            "editor.pause"@,
        ],
{
    let entries = vec![
        (Editor::modifier(), vec![Binding::Key(Key::Control)]),
        (Editor::shift(), vec![Binding::Key(Key::Shift)]),
        (Editor::undo(), vec![Binding::Key(Key::Z)]),
        (Editor::redo(), vec![Binding::Key(Key::Y)]),
        (Editor::save(), vec![Binding::Key(Key::S)]),
        (Editor::open(), vec![Binding::Key(Key::O)]),
        (Editor::duplicate(), vec![Binding::Key(Key::D)]),
        (Editor::delete(), vec![Binding::Key(Key::Delete), Binding::Key(Key::Backspace)]),
        (Editor::snap(), vec![Binding::Key(Key::G)]),
        (Editor::grid(), vec![Binding::Key(Key::H)]),
        (Editor::quit(), vec![Binding::Key(Key::Escape)]),
        (Editor::play(), vec![Binding::Key(Key::F5)]),
        (Editor::pause(), vec![Binding::Key(Key::F6)]),
    ];
    proof {
        reveal_strlit("editor.modifier");
        reveal_strlit("editor.shift");
        reveal_strlit("editor.undo");
        reveal_strlit("editor.redo");
        reveal_strlit("editor.save");
        reveal_strlit("editor.open");
        reveal_strlit("editor.duplicate");
        reveal_strlit("editor.delete");
        reveal_strlit("editor.snap");
        reveal_strlit("editor.grid");
        reveal_strlit("editor.quit");
        reveal_strlit("editor.play");
        reveal_strlit("editor.pause");
        assert(entries@[0].0.0@.len() == 15 && entries@[0].0.0@[7] == 'm' && entries@[0].0.0@[8] == 'o');
        assert(entries@[1].0.0@.len() == 12 && entries@[1].0.0@[7] == 's' && entries@[1].0.0@[8] == 'h');
        assert(entries@[2].0.0@.len() == 11 && entries@[2].0.0@[7] == 'u' && entries@[2].0.0@[8] == 'n');
        assert(entries@[3].0.0@.len() == 11 && entries@[3].0.0@[7] == 'r' && entries@[3].0.0@[8] == 'e');
        assert(entries@[4].0.0@.len() == 11 && entries@[4].0.0@[7] == 's' && entries@[4].0.0@[8] == 'a');
        assert(entries@[5].0.0@.len() == 11 && entries@[5].0.0@[7] == 'o' && entries@[5].0.0@[8] == 'p');
        assert(entries@[6].0.0@.len() == 16 && entries@[6].0.0@[7] == 'd' && entries@[6].0.0@[8] == 'u');
        assert(entries@[7].0.0@.len() == 13 && entries@[7].0.0@[7] == 'd' && entries@[7].0.0@[8] == 'e');
        assert(entries@[8].0.0@.len() == 11 && entries@[8].0.0@[7] == 's' && entries@[8].0.0@[8] == 'n');
        assert(entries@[9].0.0@.len() == 11 && entries@[9].0.0@[7] == 'g' && entries@[9].0.0@[8] == 'r');
        assert(entries@[10].0.0@.len() == 11 && entries@[10].0.0@[7] == 'q' && entries@[10].0.0@[8] == 'u');
        assert(entries@[11].0.0@.len() == 11 && entries@[11].0.0@[7] == 'p' && entries@[11].0.0@[8] == 'l');
        assert(entries@[12].0.0@.len() == 12 && entries@[12].0.0@[7] == 'p' && entries@[12].0.0@[8] == 'a');
    }
    let b = Bindings::from_entries(entries);
    proof {
        assert(entries@.map_values(|e: (Action, Vec<Binding>)| e.0.0@) =~= seq![
            "editor.modifier"@,
            "editor.shift"@,
            "editor.undo"@,
            "editor.redo"@,
            "editor.save"@,
            "editor.open"@,
            "editor.duplicate"@,
            "editor.delete"@,
            "editor.snap"@,
            "editor.grid"@,
            "editor.quit"@,
            "editor.play"@,
            "editor.pause"@,
        ]);
        assert(b.bound(entries@[0].0.0@) == entries@[0].1@);
        assert(b.bound(entries@[1].0.0@) == entries@[1].1@);
        assert(b.bound(entries@[2].0.0@) == entries@[2].1@);
        assert(b.bound(entries@[3].0.0@) == entries@[3].1@);
        assert(b.bound(entries@[4].0.0@) == entries@[4].1@);
        assert(b.bound(entries@[5].0.0@) == entries@[5].1@);
        assert(b.bound(entries@[6].0.0@) == entries@[6].1@);
        assert(b.bound(entries@[7].0.0@) == entries@[7].1@);
        assert(b.bound(entries@[8].0.0@) == entries@[8].1@);
        assert(b.bound(entries@[9].0.0@) == entries@[9].1@);
        assert(b.bound(entries@[10].0.0@) == entries@[10].1@);
        assert(b.bound(entries@[11].0.0@) == entries@[11].1@);
        assert(b.bound(entries@[12].0.0@) == entries@[12].1@);
    }
    b
}

/// What the editor was asked to do this frame.
///
/// Read all at once: a shortcut with a modifier is decided by looking at
/// several keys together, not one at a time.
#[derive(Debug, Clone, Copy, PartialEq, Eq, Structural)]
pub struct Shortcuts {
    pub undo: bool,
    pub redo: bool,
    pub save: bool,
    pub open: bool,
    pub delete: bool,
    pub duplicate: bool,
    pub toggle_snap: bool,
    pub toggle_grid: bool,
    pub quit: bool,
    pub play: bool,
    pub pause: bool,
}

impl Default for Shortcuts {
    fn default() -> (s: Self)
        ensures
            !s.undo && !s.redo && !s.save && !s.open && !s.delete && !s.duplicate,
            !s.toggle_snap && !s.toggle_grid && !s.quit && !s.play && !s.pause,
    {
        Shortcuts {
            undo: false,
            redo: false,
            save: false,
            open: false,
            delete: false,
            duplicate: false,
            toggle_snap: false,
            toggle_grid: false,
            quit: false,
            play: false,
            pause: false,
        }
    }
}

/// The shortcuts a frame's input asks for. Ctrl+Shift+Z redoes too: both
/// conventions live side by side. Delete, snap and grid are direct keys, taken
/// only without the modifier.
pub open spec fn shortcuts_of(input: Input) -> Shortcuts {
    let ctrl = input.holds("editor.modifier"@);
    let shift = input.holds("editor.shift"@);
    Shortcuts {
        undo: ctrl && !shift && input.starts("editor.undo"@),
        redo: ctrl && (input.starts("editor.redo"@) || (shift && input.starts("editor.undo"@))),
        save: ctrl && input.starts("editor.save"@),
        open: ctrl && input.starts("editor.open"@),
        duplicate: ctrl && input.starts("editor.duplicate"@),
        delete: !ctrl && input.starts("editor.delete"@),
        toggle_snap: !ctrl && input.starts("editor.snap"@),
        toggle_grid: !ctrl && input.starts("editor.grid"@),
        quit: input.starts("editor.quit"@),
        play: input.starts("editor.play"@),
        pause: input.starts("editor.pause"@),
    }
}

/// Ctrl+Shift+Z redoes and never undoes at the same time.
pub proof fn shift_never_undoes(input: Input)
    ensures
        input.holds("editor.shift"@) ==> !shortcuts_of(input).undo,
        input.holds("editor.modifier"@) && input.holds("editor.shift"@) && input.starts("editor.undo"@)
            ==> shortcuts_of(input).redo,
{
}

/// Undo and redo go off together only if both their keys start in the same
/// frame.
pub proof fn undo_and_redo_never_go_off_together(input: Input)
    requires
        !input.starts("editor.redo"@),
    ensures
        !(shortcuts_of(input).undo && shortcuts_of(input).redo),
{
}

/// Reads the shortcuts from the input.
pub fn read(input: &Input) -> (s: Shortcuts)
    requires
        input.wf(),
    ensures
        s == shortcuts_of(*input),
{
    let ctrl = input.held(&Editor::modifier());
    let shift = input.held(&Editor::shift());
    let undo_pressed = input.pressed(&Editor::undo());
    Shortcuts {
        undo: ctrl && !shift && undo_pressed,
        redo: ctrl && (input.pressed(&Editor::redo()) || (shift && undo_pressed)),
        save: ctrl && input.pressed(&Editor::save()),
        open: ctrl && input.pressed(&Editor::open()),
        duplicate: ctrl && input.pressed(&Editor::duplicate()),
        delete: !ctrl && input.pressed(&Editor::delete()),
        toggle_snap: !ctrl && input.pressed(&Editor::snap()),
        toggle_grid: !ctrl && input.pressed(&Editor::grid()),
        quit: input.pressed(&Editor::quit()),
        play: input.pressed(&Editor::play()),
        pause: input.pressed(&Editor::pause()),
    }
}

/// The editing commands need the modifier: without it no undo, redo, save,
/// open or duplicate goes off, whatever keys start; with it, the redo key
/// alone redoes, and the undo key alone, without shift, undoes.
pub proof fn editing_commands_need_the_modifier(input: Input)
    ensures
        !input.holds("editor.modifier"@) ==> {
            let s = shortcuts_of(input);
            !s.undo && !s.redo && !s.save && !s.open && !s.duplicate
        },
        input.holds("editor.modifier"@) && input.starts("editor.redo"@) ==> shortcuts_of(input).redo,
        input.holds("editor.modifier"@) && !input.holds("editor.shift"@) && input.starts("editor.undo"@)
            ==> shortcuts_of(input).undo,
{
}

} // verus!
