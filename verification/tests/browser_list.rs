use raster::asset::{AssetId, Project};
use raster::editor::browser::{skip, Browser, Entry};
use raster::editor::Kind;

fn entry(path: &str, kind: Kind, depth: usize) -> Entry {
    let id = AssetId::new(path);
    Entry {
        name: id.file_name().to_owned(),
        id,
        kind,
        depth,
    }
}

/// What a scan of a small project finds, in the order a walk meets it.
fn tree() -> Vec<Entry> {
    vec![
        entry("levels", Kind::Folder, 0),
        entry("levels/forest.scene.toml", Kind::Scene, 1),
        entry("notes.txt", Kind::Other, 0),
        entry("sounds", Kind::Folder, 0),
        entry("sounds/jump.wav", Kind::Sound, 1),
        entry("sprites", Kind::Folder, 0),
        entry("sprites/hero.png", Kind::Sprite, 1),
        entry("sprites/tiles.png", Kind::Sprite, 1),
        entry("sprites/ui", Kind::Folder, 1),
        entry("sprites/ui/button.png", Kind::Sprite, 2),
    ]
}

fn browser() -> Browser {
    let mut b = Browser::new();
    b.set_entries(tree());
    b
}

fn paths(b: &Browser) -> Vec<String> {
    b.visible().iter().map(|e| e.id.as_str().to_owned()).collect()
}

#[test]
fn entries_are_listed_by_folder_with_folders_first() {
    let b = browser();
    assert_eq!(
        paths(&b),
        [
            "levels",
            "sounds",
            "sprites",
            "notes.txt",
            "levels/forest.scene.toml",
            "sounds/jump.wav",
            "sprites/ui",
            "sprites/hero.png",
            "sprites/tiles.png",
            "sprites/ui/button.png",
        ]
    );
    assert_eq!(b.len(), 10);
}

#[test]
fn folders_are_listed_with_their_depth() {
    let b = browser();
    let ui = b
        .visible()
        .into_iter()
        .find(|e| e.id.as_str() == "sprites/ui")
        .expect("the nested folder must show");
    assert_eq!(ui.kind, Kind::Folder);
    assert_eq!(ui.depth, 1);
}

#[test]
fn searching_narrows_the_list() {
    let mut b = browser();
    b.search("hero");
    assert_eq!(paths(&b), ["sprites/hero.png"]);
}

#[test]
fn searching_ignores_case() {
    let mut b = browser();
    b.search("HERO");
    assert_eq!(b.visible().len(), 1, "nobody types the capitals");
    assert_eq!(b.filter(), Some("hero"));
}

#[test]
fn clearing_the_search_shows_everything_again() {
    let mut b = browser();
    let total = b.visible().len();

    b.search("hero");
    assert!(b.visible().len() < total);

    b.search("   ");
    assert_eq!(b.visible().len(), total, "spaces filter nothing");
    assert_eq!(b.filter(), None);
}

#[test]
fn collapsing_a_folder_hides_what_it_holds() {
    let mut b = browser();
    let before = b.visible().len();

    b.toggle(&AssetId::new("sprites"));
    let after = paths(&b);

    assert!(after.contains(&"sprites".to_owned()), "the folder stays visible");
    assert!(!after.contains(&"sprites/hero.png".to_owned()));
    assert!(!after.contains(&"sprites/ui/button.png".to_owned()));
    assert!(after.len() < before);
    assert!(b.is_collapsed(&AssetId::new("sprites")));
}

#[test]
fn unfolding_brings_the_contents_back() {
    let mut b = browser();
    let before = b.visible().len();

    b.toggle(&AssetId::new("sprites"));
    b.toggle(&AssetId::new("sprites"));

    assert_eq!(b.visible().len(), before);
    assert!(!b.is_collapsed(&AssetId::new("sprites")));
}

#[test]
fn a_search_reaches_inside_collapsed_folders() {
    let mut b = browser();
    b.toggle(&AssetId::new("sprites"));
    b.search("button");
    assert_eq!(paths(&b), ["sprites/ui/button.png"]);
}

#[test]
fn assets_can_be_listed_by_kind() {
    let b = browser();
    let sprites: Vec<&str> = b.of_kind(Kind::Sprite).iter().map(|e| e.id.as_str()).collect();
    assert_eq!(sprites.len(), 3);
    assert!(sprites.contains(&"sprites/ui/button.png"));
    assert_eq!(b.of_kind(Kind::Scene).len(), 1);
    assert_eq!(b.of_kind(Kind::Sound).len(), 1);
}

#[test]
fn an_empty_project_lists_nothing() {
    let mut b = Browser::default();
    b.set_entries(Vec::new());
    assert!(b.is_empty());
}

#[test]
fn scanning_twice_does_not_duplicate() {
    let mut b = browser();
    let before = b.len();
    b.set_entries(tree());
    assert_eq!(b.len(), before);
}

#[test]
fn scanning_finds_every_asset() {
    let b = browser();
    let paths = paths(&b);
    assert!(paths.contains(&"sprites/hero.png".to_owned()));
    assert!(paths.contains(&"levels/forest.scene.toml".to_owned()));
    assert!(paths.contains(&"sounds/jump.wav".to_owned()));
    assert!(paths.contains(&"notes.txt".to_owned()), "a file the editor cannot open still shows");
}

#[test]
fn service_files_never_appear() {
    assert!(skip("target"), "the build folder is left out");
    assert!(skip(".gitignore"));
    assert!(skip(Project::MARKER));
    assert!(!skip("sprites"));
}
