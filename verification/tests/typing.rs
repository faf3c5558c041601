use raster::input::{Bindings, Input};

fn input() -> Input {
    Input::new(Bindings::default_layout())
}

#[test]
fn typed_characters_accumulate_in_order() {
    let mut input = input();
    input.type_char('a');
    input.type_char('b');
    input.type_char('c');
    assert_eq!(input.typed(), "abc");
}

#[test]
fn control_characters_never_enter_the_buffer() {
    let mut input = input();
    input.type_char('a');
    input.type_char('\u{8}');
    input.type_char('\t');
    input.type_char('\n');
    input.type_char('\u{1b}');
    input.type_char('b');
    assert_eq!(input.typed(), "ab");
}

#[test]
fn the_buffer_is_emptied_each_frame() {
    let mut input = input();
    input.type_char('a');
    assert_eq!(input.typed(), "a");
    input.begin_frame();
    assert_eq!(input.typed(), "");
}

#[test]
fn a_fresh_input_has_typed_nothing() {
    assert_eq!(input().typed(), "");
    assert_eq!(Input::default().typed(), "");
}

#[test]
fn characters_outside_ascii_still_reach_the_buffer() {
    let mut input = input();
    input.type_char('é');
    input.type_char('\u{7f}');
    input.type_char('\u{a0}');
    assert_eq!(input.typed(), "é\u{a0}");
}
