use raster::actor::ActorId;
use raster::{Actor, World};
use raster::editor::{kept_axes, unquote, Handle, Mode, Selection};
use raster::reflect::{ReflectError, ValueKind};

#[test]
fn quotes_around_a_value_go() {
    assert_eq!(unquote("\"levels/one.scene.toml\""), "levels/one.scene.toml");
    assert_eq!(unquote("plain"), "plain");
    assert_eq!(unquote("\"\"\"x\"\""), "x");
    assert_eq!(unquote("\"\""), "");
    assert_eq!(unquote("a\"b"), "a\"b");
}

#[test]
fn a_kind_is_described_as_the_inspector_shows_it() {
    static INT: ValueKind = ValueKind::Int;
    static LIST: ValueKind = ValueKind::List(&INT);
    assert_eq!(ValueKind::Asset.describe(), "asset");
    assert_eq!(ValueKind::Struct("Sprite").describe(), "Sprite");
    assert_eq!(ValueKind::List(&INT).describe(), "[int]");
    assert_eq!(ValueKind::Option(&LIST).describe(), "[int]?");
}

#[test]
fn a_refusal_says_why() {
    let e = ReflectError::UnknownField {
        owner: "Player",
        field: "speed".to_owned(),
    };
    assert_eq!(e.message(), "Player has no field `speed`");
    let e = ReflectError::TypeMismatch {
        field: "health".to_owned(),
        expected: "int".to_owned(),
        got: "string",
    };
    assert_eq!(e.message(), "field `health` expects int, got string");
    let e = ReflectError::Readonly {
        field: "id".to_owned(),
    };
    assert_eq!(e.message(), "field `id` is read-only");
    let e = ReflectError::OutOfRange {
        field: "hp".to_owned(),
        detail: "300 > 255".to_owned(),
    };
    assert_eq!(e.message(), "value out of range for field `hp`: 300 > 255");
}

struct Dummy;

impl Actor<Dummy> for Dummy {
    fn actor_name() -> &'static str {
        "Dummy"
    }
    fn into_actor(self) -> Dummy {
        self
    }
    fn from_actor(actor: &Dummy) -> Option<&Self> {
        Some(actor)
    }
    fn from_actor_mut(actor: &mut Dummy) -> Option<&mut Self> {
        Some(actor)
    }
}

fn ids(n: usize) -> Vec<ActorId> {
    let mut world: World<Dummy> = World::new();
    (0..n).map(|_| world.spawn(Dummy)).collect()
}

#[test]
fn toggling_adds_then_removes() {
    let a = ids(3);
    let mut selection = Selection::new();
    selection.toggle(a[0]);
    selection.toggle(a[1]);
    assert_eq!(selection.as_slice(), &[a[0], a[1]]);
    assert_eq!(selection.only_selected(), None);
    selection.toggle(a[0]);
    assert_eq!(selection.as_slice(), &[a[1]]);
    assert_eq!(selection.only_selected(), Some(a[1]));
    assert!(selection.is_selected(a[1]));
    assert!(!selection.is_selected(a[0]));
}

#[test]
fn selecting_all_keeps_each_actor_once() {
    let a = ids(3);
    let mut selection = Selection::default();
    selection.select(a[2]);
    selection.select_all(&[a[0], a[1], a[0], a[2]]);
    assert_eq!(selection.as_slice(), &[a[0], a[1], a[2]]);
    selection.retain(|id| id != a[1]);
    assert_eq!(selection.as_slice(), &[a[0], a[2]]);
    selection.clear();
    assert!(selection.as_slice().is_empty());
}

#[test]
fn the_view_starts_in_select_mode_and_handles_keep_their_axes() {
    assert_eq!(Mode::default(), Mode::Select);
    assert_eq!(kept_axes(Handle::Body), (true, true));
    assert_eq!(kept_axes(Handle::AxisX), (true, false));
    assert_eq!(kept_axes(Handle::AxisY), (false, true));
}

#[test]
fn selecting_replaces_what_was_selected() {
    let a = ids(2);
    let mut view = Selection::new();
    view.select(a[0]);
    view.select(a[1]);
    assert_eq!(view.as_slice(), &[a[1]]);
}

#[test]
fn the_inspector_sees_a_lone_selection_only() {
    let a = ids(2);
    let mut view = Selection::new();
    assert_eq!(view.only_selected(), None, "nothing selected");
    view.select(a[0]);
    assert_eq!(view.only_selected(), Some(a[0]));
    view.toggle(a[1]);
    assert_eq!(view.only_selected(), None);
}

#[test]
fn selecting_the_same_actor_twice_keeps_one_entry() {
    let a = ids(1);
    let mut view = Selection::new();
    view.select_all(&[a[0], a[0], a[0]]);
    assert_eq!(view.as_slice(), &[a[0]]);
}

#[test]
fn a_deleted_actor_leaves_the_selection() {
    let mut world: World<Dummy> = World::new();
    let a = world.spawn(Dummy);
    let b = world.spawn(Dummy);
    let mut view = Selection::new();
    view.select_all(&[a, b]);

    world.despawn(a);
    view.retain(|id| world.contains(id));

    assert_eq!(view.as_slice(), &[b]);
}

#[test]
fn an_axis_handle_constrains_the_movement() {
    let free = (10.0f32, 7.0f32);
    let constrain = |handle: Handle, delta: (f32, f32)| {
        let (x, y) = kept_axes(handle);
        (if x { delta.0 } else { 0.0 }, if y { delta.1 } else { 0.0 })
    };
    assert_eq!(constrain(Handle::Body, free), free);
    assert_eq!(constrain(Handle::AxisX, free), (10.0, 0.0));
    assert_eq!(constrain(Handle::AxisY, free), (0.0, 7.0));
}
