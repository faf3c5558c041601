use crate::text::same_name;
use vstd::prelude::*;
use vstd::std_specs::cmp::PartialEqSpecImpl;

verus! {

/// What the game does, named by intent rather than by key: that is what makes
/// rebinding possible without touching gameplay.
#[derive(Debug, Clone, Copy, Hash, PartialOrd, Ord)]
pub struct Action(pub &'static str);

impl PartialEq for Action {
    fn eq(&self, other: &Self) -> (r: bool) {
        same_name(self.0, other.0)
    }
}

impl Eq for Action {
}

impl PartialEqSpecImpl for Action {
    open spec fn obeys_eq_spec() -> bool {
        true
    }

    open spec fn eq_spec(&self, other: &Action) -> bool {
        self.0@ == other.0@
    }
}

impl Action {
    pub fn jump() -> (a: Self)
        ensures
            a.0@ == "jump"@,
    {
        Action("jump")
    }

    pub fn attack() -> (a: Self)
        ensures
            a.0@ == "attack"@,
    {
        Action("attack")
    }

    pub fn interact() -> (a: Self)
        ensures
            a.0@ == "interact"@,
    {
        Action("interact")
    }

    pub fn pause() -> (a: Self)
        ensures
            a.0@ == "pause"@,
    {
        Action("pause")
    }
}

/// A pair of actions read as a single value from -1 to 1.
#[derive(Debug, Clone, Copy, PartialEq, Eq, Hash)]
pub struct Axis {
    pub negative: Action,
    pub positive: Action,
}

impl Axis {
    /// Left is negative, right positive.
    pub fn horizontal() -> (a: Self)
        ensures
            a.negative.0@ == "left"@,
            a.positive.0@ == "right"@,
    {
        Axis { negative: Action("left"), positive: Action("right") }
    }

    /// Up is negative, down positive.
    pub fn vertical() -> (a: Self)
        ensures
            a.negative.0@ == "up"@,
            a.positive.0@ == "down"@,
    {
        Axis { negative: Action("up"), positive: Action("down") }
    }
}

/// A physical input that can trigger an action.
#[derive(Debug, Clone, Copy, PartialEq, Eq, Structural, Hash)]
pub enum Binding {
    Key(Key),
    MouseButton(MouseButton),
    GamepadButton(GamepadButton),
}

/// A key, identified by its physical position: WASD must stay under the same
/// fingers on an AZERTY keyboard, where those positions read ZQSD.
#[derive(Debug, Clone, Copy, PartialEq, Eq, Structural, Hash, PartialOrd, Ord)]
pub enum Key {
    A,
    B,
    C,
    D,
    E,
    F,
    G,
    H,
    I,
    J,
    K,
    L,
    M,
    N,
    O,
    P,
    Q,
    R,
    S,
    T,
    U,
    V,
    W,
    X,
    Y,
    Z,
    Digit0,
    Digit1,
    Digit2,
    Digit3,
    Digit4,
    Digit5,
    Digit6,
    Digit7,
    Digit8,
    Digit9,
    Left,
    Right,
    Up,
    Down,
    Space,
    Enter,
    Escape,
    Tab,
    Backspace,
    Shift,
    Control,
    Alt,
    Delete,
    F1,
    F2,
    F3,
    F4,
    F5,
    F6,
    F7,
    F8,
    F9,
    F10,
    F11,
    F12,
}

#[derive(Debug, Clone, Copy, PartialEq, Eq, Structural, Hash)]
pub enum MouseButton {
    Left,
    Right,
    Middle,
}

#[derive(Debug, Clone, Copy, PartialEq, Eq, Structural, Hash)]
pub enum GamepadButton {
    South,
    East,
    North,
    West,
    LeftShoulder,
    RightShoulder,
    DPadUp,
    DPadDown,
    DPadLeft,
    DPadRight,
    Start,
    Select,
}

/// Which physical inputs trigger which actions; several bindings per action,
/// and any one of them is enough.
#[derive(Debug, Clone)]
pub struct Bindings {
    /// One entry per action, in the order the actions were first bound.
    map: Vec<(Action, Vec<Binding>)>,
}

impl Bindings {
    /// No action appears in two entries.
    pub closed spec fn wf(&self) -> bool {
        forall|i: int, j: int|
            0 <= i < self.map@.len() && 0 <= j < self.map@.len() && i != j ==> self.map@[i].0.0@
                != self.map@[j].0.0@
    }

    /// The position of the entry for the action called `name`, if any.
    pub closed spec fn position(&self, name: Seq<char>) -> Option<int> {
        if exists|k: int| 0 <= k < self.map@.len() && self.map@[k].0.0@ == name {
            Some(choose|k: int| 0 <= k < self.map@.len() && self.map@[k].0.0@ == name)
        } else {
            None
        }
    }

    /// What the action called `name` is bound to, oldest binding first.
    pub closed spec fn bound(&self, name: Seq<char>) -> Seq<Binding> {
        match self.position(name) {
            Some(k) => self.map@[k].1@,
            None => Seq::empty(),
        }
    }

    /// Every action but the one called `name` has the same entry, or none, in
    /// both.
    pub open spec fn agree_elsewhere(a: Self, b: Self, name: Seq<char>) -> bool {
        forall|other: Seq<char>|
            other != name ==> #[trigger] b.bound(other) == a.bound(other) && b.has(other) == a.has(other)
    }

    /// Whether the action called `name` has an entry, even an empty one.
    pub closed spec fn has(&self, name: Seq<char>) -> bool {
        self.position(name) is Some
    }

    /// An action has an entry exactly when its name is among the names, and
    /// no name is there twice.
    pub proof fn lemma_has(&self, name: Seq<char>)
        requires
            self.wf(),
        ensures
            self.has(name) <==> self.names().contains(name),
            forall|i: int, j: int|
                0 <= i < self.names().len() && 0 <= j < self.names().len() && i != j ==> self.names()[i]
                    != self.names()[j],
    {
        if self.has(name) {
            let k = self.position(name)->0;
            assert(self.names()[k] == name);
        }
        if self.names().contains(name) {
            let k = choose|k: int| 0 <= k < self.names().len() && self.names()[k] == name;
            assert(self.map@[k].0.0@ == name);
        }
    }

    /// The names of the actions with an entry, in the order they were first
    /// bound.
    pub closed spec fn names(&self) -> Seq<Seq<char>> {
        self.map@.map_values(|e: (Action, Vec<Binding>)| e.0.0@)
    }

    proof fn lemma_position(&self, name: Seq<char>, k: int)
        requires
            self.wf(),
            0 <= k < self.map@.len(),
            self.map@[k].0.0@ == name,
        ensures
            self.position(name) == Some(k),
    {
    }

    pub fn new() -> (b: Self)
        ensures
            b.wf(),
            b.names().len() == 0,
            forall|name: Seq<char>| !(#[trigger] b.has(name)),
    {
        Bindings { map: Vec::new() }
    }

    fn find(&self, action: &Action) -> (r: Option<usize>)
        requires
            self.wf(),
        ensures
            r is Some <==> self.position(action.0@) is Some,
            r is Some ==> r->0 == self.position(action.0@)->0 && r->0 < self.map@.len(),
    {
        let mut k: usize = 0;
        while k < self.map.len()
            invariant
                self.wf(),
                k <= self.map@.len(),
                forall|j: int| 0 <= j < k ==> self.map@[j].0.0@ != action.0@,
            decreases self.map@.len() - k,
        {
            if same_name(self.map[k].0.0, action.0) {
                proof {
                    self.lemma_position(action.0@, k as int);
                }
                return Some(k);
            }
            k = k + 1;
        }
        None
    }

    /// A default layout: WASD and the arrows (a player will try one or the
    /// other), plus the gamepad's d-pad and face buttons.
    pub fn default_layout() -> (b: Self)
        ensures
            b.wf(),
            b.bound("left"@) == seq![Binding::Key(Key::A), Binding::Key(Key::Left), Binding::GamepadButton(GamepadButton::DPadLeft)],
            b.bound("right"@) == seq![Binding::Key(Key::D), Binding::Key(Key::Right), Binding::GamepadButton(GamepadButton::DPadRight)],
            b.bound("up"@) == seq![Binding::Key(Key::W), Binding::Key(Key::Up), Binding::GamepadButton(GamepadButton::DPadUp)],
            b.bound("down"@) == seq![Binding::Key(Key::S), Binding::Key(Key::Down), Binding::GamepadButton(GamepadButton::DPadDown)],
            b.bound("jump"@) == seq![Binding::Key(Key::Space), Binding::GamepadButton(GamepadButton::South)],
            b.bound("attack"@) == seq![Binding::MouseButton(MouseButton::Left), Binding::GamepadButton(GamepadButton::West)],
            b.bound("interact"@) == seq![Binding::Key(Key::E), Binding::GamepadButton(GamepadButton::North)],
            b.bound("pause"@) == seq![Binding::Key(Key::Escape), Binding::GamepadButton(GamepadButton::Start)],
            b.names() == seq!["left"@, "right"@, "up"@, "down"@, "jump"@, "attack"@, "interact"@, "pause"@],
    {
        proof {
            reveal_strlit("left");
            reveal_strlit("right");
            reveal_strlit("up");
            reveal_strlit("down");
            reveal_strlit("jump");
            reveal_strlit("attack");
            reveal_strlit("interact");
            reveal_strlit("pause");
        }
        let entries = vec![
            (Action("left"), vec![Binding::Key(Key::A), Binding::Key(Key::Left), Binding::GamepadButton(GamepadButton::DPadLeft)]),
            (Action("right"), vec![Binding::Key(Key::D), Binding::Key(Key::Right), Binding::GamepadButton(GamepadButton::DPadRight)]),
            (Action("up"), vec![Binding::Key(Key::W), Binding::Key(Key::Up), Binding::GamepadButton(GamepadButton::DPadUp)]),
            (Action("down"), vec![Binding::Key(Key::S), Binding::Key(Key::Down), Binding::GamepadButton(GamepadButton::DPadDown)]),
            (Action::jump(), vec![Binding::Key(Key::Space), Binding::GamepadButton(GamepadButton::South)]),
            (Action::attack(), vec![Binding::MouseButton(MouseButton::Left), Binding::GamepadButton(GamepadButton::West)]),
            (Action::interact(), vec![Binding::Key(Key::E), Binding::GamepadButton(GamepadButton::North)]),
            (Action::pause(), vec![Binding::Key(Key::Escape), Binding::GamepadButton(GamepadButton::Start)]),
        ];
        proof {
            assert(entries@[0].0.0@[0] == 'l');
            assert(entries@[1].0.0@[0] == 'r');
            assert(entries@[2].0.0@[0] == 'u');
            assert(entries@[3].0.0@[0] == 'd');
            assert(entries@[4].0.0@[0] == 'j');
            assert(entries@[5].0.0@[0] == 'a');
            assert(entries@[6].0.0@[0] == 'i');
            assert(entries@[7].0.0@[0] == 'p');
        }
        let b = Self::from_entries(entries);
        proof {
            assert(entries@.map_values(|e: (Action, Vec<Binding>)| e.0.0@) =~= seq![
                "left"@,
                "right"@,
                "up"@,
                "down"@,
                "jump"@,
                "attack"@,
                "interact"@,
                "pause"@,
            ]);
            assert(b.bound(entries@[0].0.0@) == entries@[0].1@);
            assert(b.bound(entries@[1].0.0@) == entries@[1].1@);
            assert(b.bound(entries@[2].0.0@) == entries@[2].1@);
            assert(b.bound(entries@[3].0.0@) == entries@[3].1@);
            assert(b.bound(entries@[4].0.0@) == entries@[4].1@);
            assert(b.bound(entries@[5].0.0@) == entries@[5].1@);
            assert(b.bound(entries@[6].0.0@) == entries@[6].1@);
            assert(b.bound(entries@[7].0.0@) == entries@[7].1@);
        }
        b
    }

    /// Bindings made of these entries, in this order; no action may appear in
    /// two of them.
    pub(crate) fn from_entries(entries: Vec<(Action, Vec<Binding>)>) -> (b: Self)
        requires
            forall|i: int, j: int|
                0 <= i < entries@.len() && 0 <= j < entries@.len() && i != j ==> entries@[i].0.0@
                    != entries@[j].0.0@,
        ensures
            b.wf(),
            b.names() == entries@.map_values(|e: (Action, Vec<Binding>)| e.0.0@),
            forall|k: int|
                0 <= k < entries@.len() ==> #[trigger] b.bound(entries@[k].0.0@) == entries@[k].1@,
    {
        let b = Bindings { map: entries };
        proof {
            assert forall|k: int| 0 <= k < entries@.len() implies #[trigger] b.bound(entries@[k].0.0@)
                == entries@[k].1@ by {
                b.lemma_position(entries@[k].0.0@, k);
            }
        }
        b
    }

    /// Adds a binding, keeping any already attached to this action.
    pub fn bind(&mut self, action: Action, binding: Binding)
        requires
            old(self).wf(),
        ensures
            final(self).wf(),
            final(self).bound(action.0@) == old(self).bound(action.0@).push(binding),
            final(self).has(action.0@),
            Self::agree_elsewhere(*old(self), *final(self), action.0@),
            old(self).has(action.0@) ==> final(self).names() == old(self).names(),
            !old(self).has(action.0@) ==> final(self).names() == old(self).names().push(action.0@),
    {
        match self.find(&action) {
            Some(k) => {
                let ghost before = self.map@;
                let mut list = self.map[k].1.clone();
                list.push(binding);
                let name = self.map[k].0;
                self.map.set(k, (name, list));
                proof {
                    assert(self.map@ == before.update(k as int, (name, list)));
                    self.lemma_position(action.0@, k as int);
                    assert forall|name: Seq<char>|
                        name != action.0@ implies #[trigger] self.bound(name) == old(self).bound(name)
                            && self.has(name) == old(self).has(name) by {
                        if old(self).has(name) {
                            let j = old(self).position(name)->0;
                            self.lemma_position(name, j);
                        }
                        if self.has(name) {
                            let j = self.position(name)->0;
                            old(self).lemma_position(name, j);
                        }
                    }
                    assert(self.names() =~= old(self).names());
                }
            },
            None => {
                let mut list: Vec<Binding> = Vec::new();
                list.push(binding);
                self.map.push((action, list));
                proof {
                    let n = self.map@.len() - 1;
                    assert(self.wf()) by {
                        assert forall|i: int, j: int|
                            0 <= i < self.map@.len() && 0 <= j < self.map@.len() && i != j implies self.map@[i].0.0@
                                != self.map@[j].0.0@ by {
                            if i == n {
                                assert(old(self).map@[j].0.0@ != action.0@);
                            } else if j == n {
                                assert(old(self).map@[i].0.0@ != action.0@);
                            }
                        }
                    }
                    self.lemma_position(action.0@, n);
                    assert(list@ =~= Seq::<Binding>::empty().push(binding));
                    assert forall|name: Seq<char>|
                        name != action.0@ implies #[trigger] self.bound(name) == old(self).bound(name)
                            && self.has(name) == old(self).has(name) by {
                        if old(self).has(name) {
                            let j = old(self).position(name)->0;
                            self.lemma_position(name, j);
                        }
                        if self.has(name) {
                            let j = self.position(name)->0;
                            assert(j != n);
                            old(self).lemma_position(name, j);
                        }
                    }
                    assert(self.names() =~= old(self).names().push(action.0@));
                }
            },
        }
    }

    /// Replaces every binding for an action.
    #[verifier::rlimit(50)]
    pub fn rebind(&mut self, action: Action, bindings: Vec<Binding>)
        requires
            old(self).wf(),
        ensures
            final(self).wf(),
            final(self).bound(action.0@) == bindings@,
            final(self).has(action.0@),
            Self::agree_elsewhere(*old(self), *final(self), action.0@),
    {
        let ghost list = bindings@;
        match self.find(&action) {
            Some(k) => {
                let ghost before = self.map@;
                let entry_action = self.map[k].0;
                self.map.set(k, (entry_action, bindings));
                proof {
                    assert(self.map@ == before.update(k as int, (entry_action, bindings)));
                    assert(self.wf()) by {
                        assert forall|i: int, j: int|
                            0 <= i < self.map@.len() && 0 <= j < self.map@.len() && i != j implies self.map@[i].0.0@
                                != self.map@[j].0.0@ by {
                            assert(self.map@[i].0.0@ == before[i].0.0@);
                            assert(self.map@[j].0.0@ == before[j].0.0@);
                        }
                    }
                    self.lemma_position(action.0@, k as int);
                    assert forall|name: Seq<char>|
                        name != action.0@ implies #[trigger] self.bound(name) == old(self).bound(name)
                            && self.has(name) == old(self).has(name) by {
                        if old(self).has(name) {
                            let j = old(self).position(name)->0;
                            self.lemma_position(name, j);
                        }
                        if self.has(name) {
                            let j = self.position(name)->0;
                            old(self).lemma_position(name, j);
                        }
                    }
                    assert(forall|name: Seq<char>|
                        name != action.0@ ==> #[trigger] self.bound(name) == old(self).bound(name)
                            && self.has(name) == old(self).has(name));
                }
            },
            None => {
                self.map.push((action, bindings));
                proof {
                    let n = self.map@.len() - 1;
                    assert(self.wf()) by {
                        assert forall|i: int, j: int|
                            0 <= i < self.map@.len() && 0 <= j < self.map@.len() && i != j implies self.map@[i].0.0@
                                != self.map@[j].0.0@ by {
                            if i == n {
                                assert(old(self).map@[j].0.0@ != action.0@);
                            } else if j == n {
                                assert(old(self).map@[i].0.0@ != action.0@);
                            }
                        }
                    }
                    self.lemma_position(action.0@, n);
                    assert forall|name: Seq<char>|
                        name != action.0@ implies #[trigger] self.bound(name) == old(self).bound(name)
                            && self.has(name) == old(self).has(name) by {
                        if old(self).has(name) {
                            let j = old(self).position(name)->0;
                            self.lemma_position(name, j);
                        }
                        if self.has(name) {
                            let j = self.position(name)->0;
                            assert(j != n);
                            old(self).lemma_position(name, j);
                        }
                    }
                    assert(forall|name: Seq<char>|
                        name != action.0@ ==> #[trigger] self.bound(name) == old(self).bound(name)
                            && self.has(name) == old(self).has(name));
                }
            },
        }
    }

    /// Forgets every binding of an action.
    #[verifier::rlimit(50)]
    pub fn clear(&mut self, action: &Action)
        requires
            old(self).wf(),
        ensures
            final(self).wf(),
            !final(self).has(action.0@),
            final(self).bound(action.0@).len() == 0,
            Self::agree_elsewhere(*old(self), *final(self), action.0@),
    {
        match self.find(action) {
            Some(k) => {
                self.map.remove(k);
                proof {
                    assert(self.wf()) by {
                        assert forall|i: int, j: int|
                            0 <= i < self.map@.len() && 0 <= j < self.map@.len() && i != j implies self.map@[i].0.0@
                                != self.map@[j].0.0@ by {
                            let oi = if i < k { i } else { i + 1 };
                            let oj = if j < k { j } else { j + 1 };
                            assert(self.map@[i] == old(self).map@[oi]);
                            assert(self.map@[j] == old(self).map@[oj]);
                        }
                    }
                    assert forall|m: int| 0 <= m < self.map@.len() implies self.map@[m].0.0@ != action.0@ by {
                        let om = if m < k { m } else { m + 1 };
                        assert(self.map@[m] == old(self).map@[om]);
                    }
                    assert forall|name: Seq<char>|
                        name != action.0@ implies #[trigger] self.bound(name) == old(self).bound(name)
                            && self.has(name) == old(self).has(name) by {
                        if old(self).has(name) {
                            let j = old(self).position(name)->0;
                            assert(j != k as int);
                            let nj = if j < k { j } else { j - 1 };
                            assert(self.map@[nj] == old(self).map@[j]);
                            self.lemma_position(name, nj);
                        }
                        if self.has(name) {
                            let j = self.position(name)->0;
                            let oj = if j < k { j } else { j + 1 };
                            assert(self.map@[j] == old(self).map@[oj]);
                            old(self).lemma_position(name, oj);
                        }
                    }
                }
            },
            None => {
            },
        }
    }

    /// What an action is bound to.
    pub fn bindings_for(&self, action: &Action) -> (r: &[Binding])
        requires
            self.wf(),
        ensures
            r@ == self.bound(action.0@),
    {
        match self.find(action) {
            Some(k) => self.map[k].1.as_slice(),
            None => {
                let empty: &[Binding] = &[];
                proof {
                    assert(empty@ =~= Seq::<Binding>::empty());
                }
                empty
            },
        }
    }

    /// Every action bound to a physical input, in the order first bound.
    pub fn actions(&self) -> (r: Vec<&Action>)
        ensures
            r@.len() == self.names().len(),
            forall|k: int| 0 <= k < r@.len() ==> (#[trigger] r@[k]).0@ == self.names()[k],
    {
        let mut out: Vec<&Action> = Vec::new();
        let mut k: usize = 0;
        while k < self.map.len()
            invariant
                k <= self.map@.len(),
                out@.len() == k,
                forall|m: int| 0 <= m < k ==> (#[trigger] out@[m]).0@ == self.names()[m],
            decreases self.map@.len() - k,
        {
            out.push(&self.map[k].0);
            k = k + 1;
        }
        out
    }
}

impl Default for Bindings {
    fn default() -> (b: Self)
        ensures
            b.wf(),
            forall|name: Seq<char>| !(#[trigger] b.has(name)),
    {
        Self::new()
    }
}

} // verus!
