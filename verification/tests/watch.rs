use raster::asset::{AssetId, Stamp, Watcher, DEFAULT_INTERVAL};

fn stamp(modified: i128, size: u64) -> Option<Stamp> {
    Some(Stamp { modified, size })
}

#[test]
fn a_new_watcher_watches_nothing_and_sweeps_at_the_default_pace() {
    let watcher = Watcher::new();
    assert!(watcher.is_empty());
    assert_eq!(watcher.len(), 0);
    assert_eq!(watcher.interval(), DEFAULT_INTERVAL);
    assert_eq!(DEFAULT_INTERVAL, 250_000_000);
}

#[test]
fn watched_assets_are_kept_in_path_order_each_once() {
    let mut watcher = Watcher::new();
    watcher.watch(&AssetId::new("sprites/hero.png"), stamp(1, 10));
    watcher.watch(&AssetId::new("a.wav"), None);
    watcher.watch(&AssetId::new("levels/one.scene.toml"), stamp(2, 20));
    watcher.watch(&AssetId::new("./a.wav"), stamp(3, 30));

    assert_eq!(watcher.len(), 3);
    let ids: Vec<String> = watcher.ids().iter().map(|id| id.as_str().to_owned()).collect();
    assert_eq!(ids, ["a.wav", "levels/one.scene.toml", "sprites/hero.png"]);
    assert!(watcher.is_watching(&AssetId::new("a.wav")));

    watcher.forget(&AssetId::new("a.wav"));
    assert!(!watcher.is_watching(&AssetId::new("a.wav")));
    assert_eq!(watcher.len(), 2);
    watcher.forget(&AssetId::new("never.png"));
    assert_eq!(watcher.len(), 2);
}

#[test]
fn an_untouched_asset_never_reports_a_change() {
    let mut watcher = Watcher::new();
    watcher.watch(&AssetId::new("hero.png"), stamp(5, 6));

    assert!(watcher.sweep(&vec![stamp(5, 6)]).is_empty());
    assert!(watcher.sweep(&vec![stamp(5, 6)]).is_empty());
}

#[test]
fn a_rewritten_asset_is_reported_once() {
    let mut watcher = Watcher::new();
    watcher.watch(&AssetId::new("hero.png"), stamp(5, 6));

    assert_eq!(watcher.sweep(&vec![stamp(7, 20)]), [AssetId::new("hero.png")]);
    assert!(
        watcher.sweep(&vec![stamp(7, 20)]).is_empty(),
        "a change must be reported once"
    );
}

#[test]
fn a_rewrite_of_the_same_length_or_date_is_still_noticed() {
    let mut watcher = Watcher::new();
    watcher.watch(&AssetId::new("hero.png"), stamp(5, 4));
    assert_eq!(watcher.sweep(&vec![stamp(6, 4)]), [AssetId::new("hero.png")]);
    assert_eq!(watcher.sweep(&vec![stamp(6, 25)]), [AssetId::new("hero.png")]);
}

#[test]
fn a_missing_file_that_appears_is_a_change_and_so_is_a_deleted_one() {
    let mut watcher = Watcher::new();
    watcher.watch(&AssetId::new("later.png"), None);
    watcher.watch(&AssetId::new("gone.png"), stamp(1, 1));

    let changed = watcher.sweep(&vec![None, stamp(3, 3)]);
    assert_eq!(changed, [AssetId::new("gone.png"), AssetId::new("later.png")]);
}

#[test]
fn changes_come_sorted_by_path() {
    let mut watcher = Watcher::new();
    for name in ["z.png", "b.png", "m.png"] {
        watcher.watch(&AssetId::new(name), stamp(1, 1));
    }
    let changed = watcher.sweep(&vec![stamp(2, 1), stamp(1, 1), stamp(2, 1)]);
    assert_eq!(changed, [AssetId::new("b.png"), AssetId::new("z.png")]);
}

#[test]
fn a_sweep_is_due_once_per_interval() {
    let mut watcher = Watcher::with_interval(100);
    assert!(watcher.due(1_000), "the first sweep is always due");
    assert!(!watcher.due(1_050));
    assert!(!watcher.due(1_099));
    assert!(watcher.due(1_100));
    assert!(!watcher.due(900), "a clock going back waits");

    watcher.set_interval(0);
    assert_eq!(watcher.interval(), 0);
    assert!(watcher.due(1_100));
}

#[test]
fn changes_are_asked_for_only_when_a_sweep_is_due() {
    let mut watcher = Watcher::with_interval(100);
    watcher.watch(&AssetId::new("hero.png"), stamp(1, 1));

    let changed = watcher.changed(0, |_| stamp(2, 2));
    assert_eq!(changed, [AssetId::new("hero.png")]);

    let changed = watcher.changed(50, |_| -> Option<Stamp> { panic!("not due, nothing is read") });
    assert!(changed.is_empty());

    let changed = watcher.changed(150, |_| stamp(2, 2));
    assert!(changed.is_empty(), "the change was already reported");
}
