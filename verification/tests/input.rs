use raster::input::{Action, Axis, Binding, Bindings, GamepadButton, Input, Key, MouseButton};

#[test]
fn the_default_layout_binds_both_hands() {
    let bindings = Bindings::default_layout();
    assert_eq!(
        bindings.bindings_for(&Action("left")),
        &[
            Binding::Key(Key::A),
            Binding::Key(Key::Left),
            Binding::GamepadButton(GamepadButton::DPadLeft)
        ]
    );
    assert_eq!(
        bindings.bindings_for(&Action::attack()),
        &[
            Binding::MouseButton(MouseButton::Left),
            Binding::GamepadButton(GamepadButton::West)
        ]
    );
    let names: Vec<&str> = bindings.actions().iter().map(|a| a.0).collect();
    assert_eq!(
        names,
        ["left", "right", "up", "down", "jump", "attack", "interact", "pause"]
    );
    assert_eq!(Axis::horizontal().negative, Action("left"));
    assert_eq!(Axis::vertical().positive, Action("down"));
}

#[test]
fn binding_adds_and_rebinding_replaces() {
    let mut bindings = Bindings::new();
    bindings.bind(Action::jump(), Binding::Key(Key::Space));
    bindings.bind(Action::jump(), Binding::Key(Key::W));
    assert_eq!(
        bindings.bindings_for(&Action::jump()),
        &[Binding::Key(Key::Space), Binding::Key(Key::W)]
    );

    bindings.rebind(Action::jump(), vec![Binding::Key(Key::Up)]);
    assert_eq!(bindings.bindings_for(&Action::jump()), &[Binding::Key(Key::Up)]);

    bindings.clear(&Action::jump());
    assert!(bindings.bindings_for(&Action::jump()).is_empty());
    assert!(bindings.actions().is_empty());
}

#[test]
fn a_press_is_reported_once_then_held_then_released() {
    let mut input = Input::new(Bindings::default_layout());
    input.key_down(Key::Space);
    let pressed = input.begin_frame();
    assert_eq!(pressed, [Action::jump()]);
    assert!(input.pressed(&Action::jump()));
    assert!(input.held(&Action::jump()));

    let pressed = input.begin_frame();
    assert!(pressed.is_empty(), "a press is reported once");
    assert!(!input.pressed(&Action::jump()));
    assert!(input.held(&Action::jump()));

    input.key_up(Key::Space);
    input.begin_frame();
    assert!(input.released(&Action::jump()));
    assert!(!input.held(&Action::jump()));
}

#[test]
fn any_binding_of_an_action_is_enough() {
    let mut input = Input::new(Bindings::default_layout());
    input.gamepad_down(GamepadButton::South);
    input.begin_frame();
    assert!(input.held(&Action::jump()));

    input.release_all();
    input.begin_frame();
    assert!(!input.held(&Action::jump()));

    input.mouse_down(MouseButton::Left);
    input.begin_frame();
    assert!(input.pressed(&Action::attack()));
    input.mouse_up(MouseButton::Left);
    input.gamepad_up(GamepadButton::South);
    input.begin_frame();
    assert!(input.released(&Action::attack()));
}

#[test]
fn rebinding_through_the_input_takes_effect() {
    let mut input = Input::new(Bindings::new());
    input.bindings_mut().bind(Action::pause(), Binding::Key(Key::P));
    input.key_down(Key::P);
    input.begin_frame();
    assert!(input.pressed(&Action::pause()));
    assert_eq!(input.bindings().bindings_for(&Action::pause()), &[Binding::Key(Key::P)]);
}
