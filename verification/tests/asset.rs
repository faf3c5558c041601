use raster::asset::{AssetError, AssetId, AssetStore, Project};

#[test]
fn two_spellings_of_one_path_are_one_asset() {
    assert_eq!(
        AssetId::new("sprites/hero.png"),
        AssetId::new("./sprites/hero.png")
    );
    assert_eq!(
        AssetId::new("sprites/hero.png"),
        AssetId::new("sprites//hero.png")
    );
    assert_eq!(
        AssetId::new("sprites/hero.png"),
        AssetId::new("sprites\\hero.png")
    );
    assert_eq!(
        AssetId::new("sprites/hero.png"),
        AssetId::new("tiles/../sprites/hero.png")
    );
}

#[test]
fn different_paths_stay_different() {
    assert_ne!(AssetId::new("a/hero.png"), AssetId::new("b/hero.png"));
    assert_ne!(AssetId::new("hero.png"), AssetId::new("Hero.png"));
}

#[test]
fn an_identifier_exposes_its_name_and_extension() {
    let id = AssetId::new("sprites/hero.PNG");
    assert_eq!(id.file_name(), "hero.PNG");
    assert_eq!(id.extension().as_deref(), Some("png"));
    assert_eq!(id.as_str(), "sprites/hero.PNG");

    assert_eq!(AssetId::new("noext").extension(), None);
    assert_eq!(AssetId::new(".hidden").extension(), None);
    assert_eq!(AssetId::new("a/.hidden").extension(), None);
}

#[test]
fn a_path_that_climbs_past_the_root_keeps_its_dots() {
    assert_eq!(AssetId::new("../secret").as_str(), "../secret");
    assert_eq!(AssetId::new("a/../../secret").as_str(), "../secret");
}

#[test]
fn an_absolute_path_is_never_an_asset_of_the_project() {
    for absolute in [
        "/etc/passwd",
        r"\\serveur\partage",
        r"C:\Windows\notepad.exe",
    ] {
        assert!(
            AssetId::new(absolute).as_str().starts_with(".."),
            "`{absolute}` was taken for a path of the project"
        );
    }
}

#[test]
fn a_project_resolves_an_identifier_under_its_root() {
    let project = Project::new("/games/demo");
    let path = project.resolve(&AssetId::new("sprites/hero.png")).unwrap();

    assert_eq!(
        std::path::Path::new(&path),
        std::path::Path::new("/games/demo/sprites/hero.png")
    );
}

#[test]
fn a_project_refuses_to_look_outside_itself() {
    let project = Project::new("/games/demo");

    assert!(matches!(
        project.resolve(&AssetId::new("../../etc/passwd")),
        Err(AssetError::Escapes(_))
    ));
    assert!(matches!(
        project.resolve(&AssetId::new("/etc/passwd")),
        Err(AssetError::Escapes(_))
    ));
    assert!(matches!(
        project.resolve(&AssetId::default()),
        Err(AssetError::Empty)
    ));
}

#[test]
fn a_project_names_a_path_it_contains() {
    let project = Project::new("/games/demo");
    let id = project.id_of("/games/demo/sprites/hero.png").unwrap();

    assert_eq!(id, AssetId::new("sprites/hero.png"));
    assert_eq!(project.id_of("/elsewhere/hero.png"), None);
}

#[test]
fn a_store_loads_each_asset_once() {
    let mut store: AssetStore<String> = AssetStore::new();
    let mut loads = 0;

    let id = AssetId::new("hero.png");
    let first = store
        .load_with(&id, |_| {
            loads += 1;
            Ok::<_, ()>("pixels".to_owned())
        })
        .unwrap();

    let second = store
        .load_with(&AssetId::new("./hero.png"), |_| {
            loads += 1;
            Ok::<_, ()>("pixels".to_owned())
        })
        .unwrap();

    assert_eq!(loads, 1, "the second load should have come from the cache");
    assert_eq!(first, second);
    assert_eq!(store.len(), 1);
    assert_eq!(store.get(first).unwrap(), "pixels");
}

#[test]
fn a_failed_load_leaves_nothing_behind() {
    let mut store: AssetStore<String> = AssetStore::new();
    let id = AssetId::new("missing.png");

    assert!(store
        .load_with(&id, |_| Err::<String, _>("absent"))
        .is_err());
    assert!(!store.contains(&id));

    let handle = store
        .load_with(&id, |_| Ok::<_, ()>("enfin".to_owned()))
        .unwrap();
    assert_eq!(store.get(handle).unwrap(), "enfin");
}

#[test]
fn reloading_an_asset_keeps_existing_handles_valid() {
    let mut store: AssetStore<String> = AssetStore::new();
    let id = AssetId::new("hero.png");

    let handle = store.insert(id.clone(), "avant".to_owned());
    store.insert(id.clone(), "apres".to_owned());

    assert_eq!(store.len(), 1, "the reload duplicated the asset");
    assert_eq!(
        store.get(handle).unwrap(),
        "apres",
        "an existing handle still points at the old version"
    );
}

#[test]
fn a_store_remembers_where_each_asset_came_from() {
    let mut store: AssetStore<u32> = AssetStore::new();
    let a = store.insert(AssetId::new("a.png"), 1);
    let b = store.insert(AssetId::new("b.png"), 2);

    assert_eq!(store.id_of(a).unwrap(), &AssetId::new("a.png"));
    assert_eq!(store.id_of(b).unwrap(), &AssetId::new("b.png"));
    assert_eq!(store.by_id(&AssetId::new("b.png")), Some(&2));
    assert_eq!(store.by_id(&AssetId::new("nope.png")), None);
}

/// Deliberately neither `Copy` nor `Clone`, like a GPU texture.
struct NotCopy(#[allow(dead_code)] u32);

#[test]
fn a_handle_is_copiable_even_when_the_asset_is_not() {
    let mut store: AssetStore<NotCopy> = AssetStore::new();
    let handle = store.insert(AssetId::new("a.png"), NotCopy(1));

    let copy = handle;
    assert!(handle == copy);
    assert!(store.get(copy).is_some());
}

#[test]
fn an_extension_is_lowercased_whatever_its_case() {
    assert_eq!(AssetId::new("hero.PnG").extension().as_deref(), Some("png"));
    assert_eq!(AssetId::new("a.b/c.TAR").extension().as_deref(), Some("tar"));
    assert_eq!(AssetId::new("a.b/c").extension(), None);
    assert_eq!(AssetId::new("dots.").extension().as_deref(), Some(""));
}

#[test]
fn an_empty_identifier_is_empty() {
    assert!(AssetId::default().is_empty());
    assert!(AssetId::new("").is_empty());
    assert!(AssetId::new("./").is_empty());
    assert!(!AssetId::new("a").is_empty());
}

#[test]
fn a_store_hands_out_handles_in_order() {
    let mut store: AssetStore<u32> = AssetStore::new();
    let a = store.insert(AssetId::new("a.png"), 1);
    let b = store.insert(AssetId::new("b.png"), 2);

    assert_eq!(a.index(), 0);
    assert_eq!(b.index(), 1);
    assert_eq!(store.handle(&AssetId::new("./b.png")), Some(b));
    assert_eq!(store.as_slice(), &[1, 2]);
    let pairs: Vec<(String, u32)> = store
        .iter()
        .into_iter()
        .map(|(id, v)| (id.as_str().to_owned(), *v))
        .collect();
    assert_eq!(pairs, vec![("a.png".to_owned(), 1), ("b.png".to_owned(), 2)]);
    *store.get_mut(a).unwrap() = 10;
    assert_eq!(store.get(a), Some(&10));
}

#[test]
fn an_identifier_is_already_normal() {
    for path in [
        "sprites/hero.png",
        "./a//b/../c.png",
        "../../up.png",
        "/etc/passwd",
        "a\\b\\c",
        "",
    ] {
        let id = AssetId::new(path);
        assert_eq!(AssetId::new(id.as_str()), id, "`{path}` normalised twice changed");
    }
}

#[test]
fn a_path_that_reads_as_a_drive_is_put_outside_on_a_second_pass() {
    let id = AssetId::new("a/../C:x");
    assert_eq!(id.as_str(), "C:x");
    assert_eq!(AssetId::new(id.as_str()).as_str(), "../C:x");
}
