use super::action::{Action, Binding, Bindings, GamepadButton, Key, MouseButton};
use crate::text::string_of;
use vstd::prelude::*;

verus! {

/// Whether a character is a control character (Unicode category Cc): a
/// command such as backspace, tab or enter rather than text.
pub open spec fn is_control(c: char) -> bool {
    c <= '\u{1f}' || ('\u{7f}' <= c && c <= '\u{9f}')
}

/// Whether any of `bindings` is among `active`.
pub open spec fn any_active(bindings: Seq<Binding>, active: Seq<Binding>) -> bool {
    exists|i: int| 0 <= i < bindings.len() && active.contains(#[trigger] bindings[i])
}

/// Which buttons are held, and which of the bound inputs were active this frame
/// and the one before: what tells a press from a hold.
///
/// The timing side of input (how long ago an action was pressed, the mouse
/// and the scroll wheel) is kept by the caller; this is the part that decides.
#[derive(Debug)]
pub struct Input {
    bindings: Bindings,
    /// Every key and button held down, each once.
    down: Vec<Binding>,
    /// What was active last frame, so a press can be told from a hold.
    previous: Vec<Binding>,
    current: Vec<Binding>,
    /// The text typed this frame, in order.
    typed: Vec<char>,
}

impl Input {
    pub closed spec fn wf(&self) -> bool {
        self.bindings.wf()
    }

    /// The text typed this frame.
    pub closed spec fn typed_text(&self) -> Seq<char> {
        self.typed@
    }

    /// The bindings in force.
    pub closed spec fn bound(&self) -> Bindings {
        self.bindings
    }

    /// The inputs active this frame.
    pub closed spec fn active(&self) -> Seq<Binding> {
        self.current@
    }

    /// The inputs active the frame before.
    pub closed spec fn was_active(&self) -> Seq<Binding> {
        self.previous@
    }

    /// The keys and buttons held down.
    pub closed spec fn held_inputs(&self) -> Seq<Binding> {
        self.down@
    }

    /// Whether a key or button is held down.
    pub closed spec fn is_down(&self, input: Binding) -> bool {
        self.down@.contains(input)
    }

    /// Whether the action called `name` is held this frame.
    pub open spec fn holds(&self, name: Seq<char>) -> bool {
        any_active(self.bound().bound(name), self.active())
    }

    /// Whether the action called `name` started this frame.
    pub open spec fn starts(&self, name: Seq<char>) -> bool {
        self.holds(name) && !any_active(self.bound().bound(name), self.was_active())
    }

    /// Whether the action called `name` stopped this frame.
    pub open spec fn stops(&self, name: Seq<char>) -> bool {
        any_active(self.bound().bound(name), self.was_active()) && !self.holds(name)
    }

    /// What starting a frame does: what was active moves to the frame before,
    /// and what is held becomes active.
    pub open spec fn framed(old: Self, new: Self) -> bool {
        &&& new.bound() == old.bound()
        &&& new.was_active() == old.active()
        &&& new.active() == old.held_inputs()
        &&& new.held_inputs() == old.held_inputs()
        &&& new.typed_text().len() == 0
    }

    /// A press is reported once: with nothing pressed or released between two
    /// frames, no action starts in the second.
    pub proof fn a_press_is_reported_once(i0: Self, i1: Self, i2: Self, name: Seq<char>)
        requires
            Self::framed(i0, i1),
            Self::framed(i1, i2),
        ensures
            !i2.starts(name),
            i2.holds(name) == i1.holds(name),
    {
    }

    /// Nothing held and nothing active.
    pub fn new(bindings: Bindings) -> (input: Self)
        requires
            bindings.wf(),
        ensures
            input.wf(),
            input.bound() == bindings,
            input.active().len() == 0,
            input.was_active().len() == 0,
            forall|b: Binding| !(#[trigger] input.is_down(b)),
            input.typed_text().len() == 0,
    {
        Input {
            bindings,
            down: Vec::new(),
            previous: Vec::new(),
            current: Vec::new(),
            typed: Vec::new(),
        }
    }

    /// A character typed this frame, for text fields. Control characters
    /// (backspace, tab, enter, escape) are commands with keys of their own,
    /// not text, and are left out; anything else is kept, whether a font can
    /// draw it or not being the field's business.
    pub fn type_char(&mut self, c: char)
        ensures
            final(self).typed_text() == if is_control(c) {
                old(self).typed_text()
            } else {
                old(self).typed_text().push(c)
            },
            final(self).wf() == old(self).wf(),
            final(self).bound() == old(self).bound(),
            final(self).active() == old(self).active(),
            final(self).was_active() == old(self).was_active(),
            final(self).held_inputs() == old(self).held_inputs(),
    {
        if !(c <= '\u{1f}' || ('\u{7f}' <= c && c <= '\u{9f}')) {
            self.typed.push(c);
        }
    }

    /// The text typed this frame, in order.
    pub fn typed(&self) -> (r: String)
        ensures
            r@ == self.typed_text(),
    {
        string_of(&self.typed)
    }

    pub fn bindings(&self) -> (r: &Bindings)
        ensures
            *r == self.bound(),
    {
        &self.bindings
    }

    /// The bindings, to change them.
    pub fn bindings_mut(&mut self) -> (r: &mut Bindings)
        ensures
            *r == old(self).bound(),
            final(self).bound() == *final(r),
            final(self).active() == old(self).active(),
            final(self).was_active() == old(self).was_active(),
            final(self).held_inputs() == old(self).held_inputs(),
    {
        &mut self.bindings
    }

    fn any_in(&self, action: &Action, active: &Vec<Binding>) -> (r: bool)
        requires
            self.wf(),
        ensures
            r == any_active(self.bindings.bound(action.0@), active@),
    {
        let bound = self.bindings.bindings_for(action);
        let mut i: usize = 0;
        while i < bound.len()
            invariant
                bound@ == self.bindings.bound(action.0@),
                i <= bound@.len(),
                forall|j: int| 0 <= j < i ==> !active@.contains(#[trigger] bound@[j]),
            decreases bound@.len() - i,
        {
            let b = bound[i];
            let mut k: usize = 0;
            while k < active.len()
                invariant
                    bound@ == self.bindings.bound(action.0@),
                    i < bound@.len(),
                    b == bound@[i as int],
                    k <= active@.len(),
                    forall|m: int| 0 <= m < k ==> active@[m] != b,
                decreases active@.len() - k,
            {
                if active[k] == b {
                    proof {
                        assert(active@[k as int] == bound@[i as int]);
                        assert(active@.contains(bound@[i as int]));
                    }
                    return true;
                }
                k = k + 1;
            }
            i = i + 1;
        }
        false
    }

    /// Whether an action is held right now.
    pub fn held(&self, action: &Action) -> (r: bool)
        requires
            self.wf(),
        ensures
            r == self.holds(action.0@),
    {
        self.any_in(action, &self.current)
    }

    /// Whether an action started this frame.
    pub fn pressed(&self, action: &Action) -> (r: bool)
        requires
            self.wf(),
        ensures
            r == self.starts(action.0@),
    {
        self.any_in(action, &self.current) && !self.any_in(action, &self.previous)
    }

    /// Whether an action stopped this frame.
    pub fn released(&self, action: &Action) -> (r: bool)
        requires
            self.wf(),
        ensures
            r == self.stops(action.0@),
    {
        self.any_in(action, &self.previous) && !self.any_in(action, &self.current)
    }

    /// Holds an input down.
    fn press(&mut self, input: Binding)
        ensures
            final(self).is_down(input),
            forall|b: Binding| b != input ==> #[trigger] final(self).is_down(b) == old(self).is_down(b),
            final(self).bound() == old(self).bound(),
            final(self).active() == old(self).active(),
            final(self).was_active() == old(self).was_active(),
    {
        if !contains(&self.down, &input) {
            let ghost before = self.down@;
            self.down.push(input);
            proof {
                assert forall|b: Binding| #[trigger] self.down@.contains(b) == (before.contains(b) || b == input) by {
                    lemma_push_contains(before, input, b);
                }
            }
        }
    }

    /// Lets an input go.
    fn lift(&mut self, input: Binding)
        ensures
            !final(self).is_down(input),
            forall|b: Binding| b != input ==> #[trigger] final(self).is_down(b) == old(self).is_down(b),
            final(self).bound() == old(self).bound(),
            final(self).active() == old(self).active(),
            final(self).was_active() == old(self).was_active(),
    {
        self.down = remove_all(&self.down, &input);
    }

    pub fn key_down(&mut self, key: Key)
        ensures
            final(self).is_down(Binding::Key(key)),
            forall|b: Binding| b != Binding::Key(key) ==> #[trigger] final(self).is_down(b) == old(self).is_down(b),
            final(self).bound() == old(self).bound(),
            final(self).active() == old(self).active(),
            final(self).was_active() == old(self).was_active(),
    {
        self.press(Binding::Key(key));
    }

    pub fn key_up(&mut self, key: Key)
        ensures
            !final(self).is_down(Binding::Key(key)),
            forall|b: Binding| b != Binding::Key(key) ==> #[trigger] final(self).is_down(b) == old(self).is_down(b),
            final(self).bound() == old(self).bound(),
            final(self).active() == old(self).active(),
            final(self).was_active() == old(self).was_active(),
    {
        self.lift(Binding::Key(key));
    }

    pub fn mouse_down(&mut self, button: MouseButton)
        ensures
            final(self).is_down(Binding::MouseButton(button)),
            forall|b: Binding| b != Binding::MouseButton(button) ==> #[trigger] final(self).is_down(b) == old(self).is_down(b),
            final(self).bound() == old(self).bound(),
            final(self).active() == old(self).active(),
            final(self).was_active() == old(self).was_active(),
    {
        self.press(Binding::MouseButton(button));
    }

    pub fn mouse_up(&mut self, button: MouseButton)
        ensures
            !final(self).is_down(Binding::MouseButton(button)),
            forall|b: Binding| b != Binding::MouseButton(button) ==> #[trigger] final(self).is_down(b) == old(self).is_down(b),
            final(self).bound() == old(self).bound(),
            final(self).active() == old(self).active(),
            final(self).was_active() == old(self).was_active(),
    {
        self.lift(Binding::MouseButton(button));
    }

    pub fn gamepad_down(&mut self, button: GamepadButton)
        ensures
            final(self).is_down(Binding::GamepadButton(button)),
            forall|b: Binding| b != Binding::GamepadButton(button) ==> #[trigger] final(self).is_down(b) == old(self).is_down(b),
            final(self).bound() == old(self).bound(),
            final(self).active() == old(self).active(),
            final(self).was_active() == old(self).was_active(),
    {
        self.press(Binding::GamepadButton(button));
    }

    pub fn gamepad_up(&mut self, button: GamepadButton)
        ensures
            !final(self).is_down(Binding::GamepadButton(button)),
            forall|b: Binding| b != Binding::GamepadButton(button) ==> #[trigger] final(self).is_down(b) == old(self).is_down(b),
            final(self).bound() == old(self).bound(),
            final(self).active() == old(self).active(),
            final(self).was_active() == old(self).was_active(),
    {
        self.lift(Binding::GamepadButton(button));
    }

    /// Releases everything, for when the window loses focus: otherwise a key
    /// held at that moment would stay held for ever.
    pub fn release_all(&mut self)
        ensures
            forall|b: Binding| !(#[trigger] final(self).is_down(b)),
            final(self).active().len() == 0,
            final(self).was_active() == old(self).was_active(),
            final(self).bound() == old(self).bound(),
    {
        self.down.clear();
        self.current.clear();
    }

    /// Advances one frame: what was active becomes the previous frame, and
    /// what is held becomes active. Returns the actions pressed this frame, in
    /// the order they were first bound, for the caller's input buffer.
    pub fn begin_frame(&mut self) -> (pressed: Vec<Action>)
        requires
            old(self).wf(),
        ensures
            final(self).wf(),
            Self::framed(*old(self), *final(self)),
            pressed@.map_values(|a: Action| a.0@) == old(self).bound().names().filter(
                |n: Seq<char>| final(self).starts(n),
            ),
    {
        let mut current: Vec<Binding> = Vec::new();
        let mut i: usize = 0;
        while i < self.down.len()
            invariant
                i <= self.down@.len(),
                current@ == self.down@.take(i as int),
            decreases self.down@.len() - i,
        {
            current.push(self.down[i]);
            proof {
                assert(self.down@.take(i as int + 1) =~= self.down@.take(i as int).push(self.down@[i as int]));
            }
            i = i + 1;
        }
        proof {
            assert(self.down@.take(i as int) =~= self.down@);
        }
        let mut swapped = current;
        std::mem::swap(&mut self.current, &mut swapped);
        self.previous = swapped;
        self.typed.clear();
        let actions = self.bindings.actions();
        let mut pressed: Vec<Action> = Vec::new();
        let mut k: usize = 0;
        while k < actions.len()
            invariant
                self.wf(),
                actions@.len() == self.bindings.names().len(),
                forall|j: int| 0 <= j < actions@.len() ==> (#[trigger] actions@[j]).0@ == self.bindings.names()[j],
                k <= actions@.len(),
                pressed@.map_values(|a: Action| a.0@) == self.bindings.names().take(k as int).filter(
                    |n: Seq<char>| self.starts(n),
                ),
            decreases actions@.len() - k,
        {
            let action = *actions[k];
            let ghost before = pressed@;
            proof {
                reveal(Seq::filter);
                let names = self.bindings.names();
                assert(names.take(k as int + 1).drop_last() =~= names.take(k as int));
                assert(names.take(k as int + 1).last() == action.0@);
            }
            if self.pressed(&action) {
                pressed.push(action);
                proof {
                    assert(pressed@.map_values(|a: Action| a.0@) =~= before.map_values(|a: Action| a.0@).push(action.0@));
                }
            }
            k = k + 1;
        }
        proof {
            assert(self.bindings.names().take(k as int) =~= self.bindings.names());
        }
        pressed
    }
}

impl Default for Input {
    /// The default layout, nothing held.
    fn default() -> (input: Self)
        ensures
            input.wf(),
            input.bound().names() == seq!["left"@, "right"@, "up"@, "down"@, "jump"@, "attack"@, "interact"@, "pause"@],
            input.active().len() == 0,
            input.was_active().len() == 0,
            forall|b: Binding| !(#[trigger] input.is_down(b)),
            input.typed_text().len() == 0,
    {
        Input::new(Bindings::default_layout())
    }
}

proof fn lemma_push_contains(s: Seq<Binding>, x: Binding, y: Binding)
    ensures
        s.push(x).contains(y) == (s.contains(y) || y == x),
{
    if s.contains(y) {
        let j = choose|j: int| 0 <= j < s.len() && s[j] == y;
        assert(s.push(x)[j] == y);
    }
    if y == x {
        assert(s.push(x)[s.len() as int] == y);
    }
    if s.push(x).contains(y) && y != x {
        let j = choose|j: int| 0 <= j < s.len() + 1 && s.push(x)[j] == y;
        assert(s[j] == y);
    }
}

/// Whether `v` holds `x`.
fn contains(v: &Vec<Binding>, x: &Binding) -> (r: bool)
    ensures
        r == v@.contains(*x),
{
    let mut i: usize = 0;
    while i < v.len()
        invariant
            i <= v@.len(),
            forall|j: int| 0 <= j < i ==> v@[j] != *x,
        decreases v@.len() - i,
    {
        if v[i] == *x {
            return true;
        }
        i = i + 1;
    }
    false
}

/// `v` without any `x`.
fn remove_all(v: &Vec<Binding>, x: &Binding) -> (r: Vec<Binding>)
    ensures
        !r@.contains(*x),
        forall|y: Binding| y != *x ==> (r@.contains(y) <==> v@.contains(y)),
{
    let mut out: Vec<Binding> = Vec::new();
    let mut i: usize = 0;
    while i < v.len()
        invariant
            i <= v@.len(),
            !out@.contains(*x),
            forall|y: Binding| y != *x ==> (out@.contains(y) <==> v@.take(i as int).contains(y)),
        decreases v@.len() - i,
    {
        let ghost before = out@;
        let item = v[i];
        if !(item == *x) {
            out.push(item);
        }
        proof {
            assert(v@.take(i as int + 1) =~= v@.take(i as int).push(v@[i as int]));
            assert forall|y: Binding| y != *x implies (out@.contains(y) <==> v@.take(i as int + 1).contains(y)) by {
                lemma_push_contains(v@.take(i as int), v@[i as int], y);
                if item != *x {
                    lemma_push_contains(before, item, y);
                }
            }
            if out@.contains(*x) {
                let j = choose|j: int| 0 <= j < out@.len() && out@[j] == *x;
                if j < before.len() {
                    assert(before[j] == *x);
                }
            }
        }
        i = i + 1;
    }
    proof {
        assert(v@.take(i as int) =~= v@);
    }
    out
}

/// Typing keeps text and drops commands: every printable ASCII character,
/// the space among them, and every character beyond the Latin-1 controls is
/// typed; the C0 controls (backspace, tab, enter and the others) and delete
/// through the C1 controls are not.
pub proof fn text_is_typed_and_commands_are_not(c: char)
    ensures
        ' ' <= c && c <= '~' ==> !is_control(c),
        c > '\u{9f}' ==> !is_control(c),
        c <= '\u{1f}' ==> is_control(c),
        '\u{7f}' <= c && c <= '\u{9f}' ==> is_control(c),
        !is_control(' '),
{
}

} // verus!
