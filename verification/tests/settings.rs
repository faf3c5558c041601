use raster::editor::Settings;

#[test]
fn every_setting_survives() {
    let mut settings = Settings::new();
    settings.snap = false;
    settings.show_grid = false;
    settings.zoom = 8;
    settings.scene = Some("levels/forest.scene.toml".to_owned());

    let read = Settings::from_toml(&settings.to_toml("[a@0]"));

    assert!(!read.snap);
    assert!(!read.show_grid);
    assert_eq!(read.zoom, 8);
    assert_eq!(read.scene.as_deref(), Some("levels/forest.scene.toml"));
}

#[test]
fn an_empty_session_gives_the_defaults() {
    let read = Settings::from_toml("");
    assert!(read.snap, "snapping is on by default");
    assert!(read.show_grid);
    assert_eq!(read.zoom, 2);
    assert_eq!(read.scene, None);
    assert_eq!(Settings::layout_of(""), None);
}

#[test]
fn an_out_of_range_zoom_is_clamped() {
    assert_eq!(Settings::from_toml("[session]\nzoom = 0\n").zoom, 1);
    assert_eq!(Settings::from_toml("[session]\nzoom = 9999\n").zoom, 16);
    assert_eq!(Settings::from_toml("zoom = +3").zoom, 3);
}

#[test]
fn an_unreadable_value_keeps_the_default() {
    let read = Settings::from_toml("zoom = lots\nsnap\nunknown = 1\r\ngrid = maybe\r\n");
    assert_eq!(read.zoom, 2);
    assert!(read.snap);
    assert!(!read.show_grid, "only `true` turns the grid on");
    assert_eq!(Settings::from_toml("zoom = 99999999999").zoom, 2);
}

#[test]
fn a_session_file_is_readable() {
    let text = Settings::new().to_toml("H:0.200([Assets@0]|[Scene@0])");
    assert!(text.contains("snap = true"), "{text}");
    assert!(text.contains("[layout]"), "{text}");
    assert!(text.contains("Assets"), "panel names must stay readable");
    assert_eq!(
        text,
        "[session]\nsnap = true\ngrid = true\nzoom = 2\n\n[layout]\ntree = \"H:0.200([Assets@0]|[Scene@0])\"\n"
    );
}

#[test]
fn the_layout_line_is_given_back_unquoted() {
    let text = Settings::new().to_toml("[a,b@1]");
    assert_eq!(Settings::layout_of(&text).as_deref(), Some("[a,b@1]"));
    assert_eq!(
        Settings::layout_of("tree = \"x\"\ntree = \"y\"").as_deref(),
        Some("y"),
        "the last line wins"
    );
}

#[test]
fn the_settings_file_has_its_name() {
    assert_eq!(Settings::FILE, ".raster-session.toml");
}

#[test]
fn whitespace_around_keys_and_values_is_ignored() {
    let s = Settings::from_toml("\u{a0}snap\t=\u{2003}false \nzoom =\u{3000}7\r\n");
    assert!(!s.snap);
    assert_eq!(s.zoom, 7);
}

#[test]
fn a_written_layout_and_scene_come_back() {
    let mut settings = Settings::new();
    settings.scene = Some("levels/one two.scene.toml".to_string());
    settings.snap = false;
    settings.show_grid = false;
    settings.zoom = 40;
    let text = settings.to_toml("split(left, right)");
    let back = Settings::from_toml(&text);
    assert_eq!(back.scene.as_deref(), Some("levels/one two.scene.toml"));
    assert!(!back.snap);
    assert!(!back.show_grid);
    assert_eq!(back.zoom, 16);
    assert_eq!(Settings::layout_of(&text).as_deref(), Some("split(left, right)"));
}
