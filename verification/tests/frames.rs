use raster::input::{Action, Binding, Bindings, Input, Key, MouseButton};

fn input() -> Input {
    Input::new(Bindings::default_layout())
}

/// A frame with the keys already down: `begin_frame` samples what is held,
/// so the order matters.
fn frame(input: &mut Input) {
    input.begin_frame();
}

#[test]
fn une_touche_enfoncee_declenche_son_action() {
    let mut input = input();
    input.key_down(Key::Space);
    frame(&mut input);

    assert!(input.held(&Action::jump()));
    assert!(input.pressed(&Action::jump()));
    assert!(!input.released(&Action::jump()));
}

#[test]
fn une_pression_ne_dure_qu_une_frame() {
    let mut input = input();
    input.key_down(Key::Space);
    frame(&mut input);
    assert!(input.pressed(&Action::jump()));

    frame(&mut input);
    assert!(!input.pressed(&Action::jump()), "the press lasted two frames");
    assert!(input.held(&Action::jump()), "the key is still down");
}

#[test]
fn relacher_est_signale_une_fois() {
    let mut input = input();
    input.key_down(Key::Space);
    frame(&mut input);

    input.key_up(Key::Space);
    frame(&mut input);
    assert!(input.released(&Action::jump()));
    assert!(!input.held(&Action::jump()));

    frame(&mut input);
    assert!(!input.released(&Action::jump()), "the release lasted two frames");
}

#[test]
fn plusieurs_liaisons_declenchent_la_meme_action() {
    let mut input = input();
    let left = Action("left");

    input.key_down(Key::A);
    frame(&mut input);
    assert!(input.held(&left));

    input.key_up(Key::A);
    input.key_down(Key::Left);
    frame(&mut input);
    assert!(input.held(&left), "the left arrow should work too");
}

#[test]
fn un_bouton_de_souris_declenche_son_action() {
    let mut input = input();
    input.mouse_down(MouseButton::Left);
    frame(&mut input);

    assert!(input.held(&Action::attack()));
    assert!(input.pressed(&Action::attack()));
}

#[test]
fn perdre_le_focus_relache_tout() {
    let mut input = input();
    input.key_down(Key::Space);
    input.key_down(Key::D);
    frame(&mut input);
    assert!(input.held(&Action::jump()));

    input.release_all();
    frame(&mut input);

    assert!(!input.held(&Action::jump()));
    assert!(!input.held(&Action("right")));
    assert!(!input.held(&Action("left")));
}

#[test]
fn une_action_peut_etre_reliee_autrement() {
    let mut input = input();
    input
        .bindings_mut()
        .rebind(Action::jump(), vec![Binding::Key(Key::Z)]);

    input.key_down(Key::Space);
    frame(&mut input);
    assert!(!input.held(&Action::jump()), "the old binding still works");

    input.key_up(Key::Space);
    input.key_down(Key::Z);
    frame(&mut input);
    assert!(input.held(&Action::jump()));
}

#[test]
fn une_action_sans_liaison_ne_se_declenche_jamais() {
    let mut input = input();
    input.bindings_mut().clear(&Action::jump());

    input.key_down(Key::Space);
    frame(&mut input);

    assert!(!input.held(&Action::jump()));
    assert!(!input.pressed(&Action::jump()));
}

#[test]
fn une_action_inconnue_est_inerte() {
    let mut input = input();
    input.key_down(Key::Space);
    let pressed = input.begin_frame();

    let invented = Action("cette action n'existe pas");
    assert!(!input.held(&invented));
    assert!(!input.pressed(&invented));
    assert!(!pressed.contains(&invented), "never offered to the press buffer");
}
