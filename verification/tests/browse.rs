use raster::asset::AssetId;
use raster::editor::browser::skip;
use raster::editor::Kind;

#[test]
fn each_extension_gets_its_kind() {
    assert_eq!(Kind::of(&AssetId::new("a/hero.png")), Kind::Sprite);
    assert_eq!(Kind::of(&AssetId::new("a/hero.JPEG")), Kind::Sprite);
    assert_eq!(Kind::of(&AssetId::new("a/level.scene.toml")), Kind::Scene);
    assert_eq!(Kind::of(&AssetId::new("a/jump.wav")), Kind::Sound);
    assert_eq!(Kind::of(&AssetId::new("a/jump.OGG")), Kind::Sound);
    assert_eq!(Kind::of(&AssetId::new("a/notes.txt")), Kind::Other);
    assert_eq!(Kind::of(&AssetId::new("raster.toml")), Kind::Other);
    assert_eq!(Kind::of(&AssetId::new("noext")), Kind::Other);
}

#[test]
fn each_kind_has_its_label() {
    assert_eq!(Kind::Folder.label(), "dossier");
    assert_eq!(Kind::Sprite.label(), "sprite");
    assert_eq!(Kind::Scene.label(), "scene");
    assert_eq!(Kind::Sound.label(), "son");
    assert_eq!(Kind::Other.label(), "fichier");
}

#[test]
fn service_files_are_skipped() {
    assert!(skip(".git"));
    assert!(skip(".gitignore"));
    assert!(skip("target"));
    assert!(skip("raster.toml"));
    assert!(!skip("sprites"));
    assert!(!skip("hero.png"));
    assert!(!skip(""));
}
