use raster::{Actor, ActorId, Behaviour, World};

#[derive(Default, Debug, PartialEq)]
struct Player {
    position: (f32, f32),
    health: u32,
}

#[derive(Default, Debug, PartialEq)]
struct Enemy {
    position: (f32, f32),
    target: u32,
}

#[derive(Default, Debug, PartialEq)]
struct Ticker {
    ticks: u32,
    fixed_ticks: u32,
    spawned: bool,
    despawned: bool,
}

/// The game's actors, one variant per type.
#[derive(Debug)]
enum Game {
    Player(Player),
    Enemy(Enemy),
    Ticker(Ticker),
}

impl Actor<Game> for Player {
    fn actor_name() -> &'static str {
        "Player"
    }
    fn into_actor(self) -> Game {
        Game::Player(self)
    }
    fn from_actor(actor: &Game) -> Option<&Self> {
        match actor {
            Game::Player(p) => Some(p),
            _ => None,
        }
    }
    fn from_actor_mut(actor: &mut Game) -> Option<&mut Self> {
        match actor {
            Game::Player(p) => Some(p),
            _ => None,
        }
    }
}

impl Actor<Game> for Enemy {
    fn actor_name() -> &'static str {
        "Enemy"
    }
    fn into_actor(self) -> Game {
        Game::Enemy(self)
    }
    fn from_actor(actor: &Game) -> Option<&Self> {
        match actor {
            Game::Enemy(e) => Some(e),
            _ => None,
        }
    }
    fn from_actor_mut(actor: &mut Game) -> Option<&mut Self> {
        match actor {
            Game::Enemy(e) => Some(e),
            _ => None,
        }
    }
}

impl Actor<Game> for Ticker {
    fn actor_name() -> &'static str {
        "Ticker"
    }
    fn into_actor(self) -> Game {
        Game::Ticker(self)
    }
    fn from_actor(actor: &Game) -> Option<&Self> {
        match actor {
            Game::Ticker(t) => Some(t),
            _ => None,
        }
    }
    fn from_actor_mut(actor: &mut Game) -> Option<&mut Self> {
        match actor {
            Game::Ticker(t) => Some(t),
            _ => None,
        }
    }
}

impl Behaviour<Game> for Ticker {
    type Step = f32;

    fn tick(&mut self, _dt: f32) {
        self.ticks += 1;
    }
    fn fixed_tick(&mut self, _dt: f32) {
        self.fixed_ticks += 1;
    }
    fn on_spawn(&mut self) {
        self.spawned = true;
    }
    fn on_despawn(&mut self) {
        self.despawned = true;
    }
}

fn world() -> World<Game> {
    World::new()
}

#[test]
fn a_spawned_actor_can_be_read_back() {
    let mut world = world();
    let id = world.spawn(Player {
        health: 100,
        ..Default::default()
    });

    assert_eq!(world.get::<Player>(id).unwrap().health, 100);
    assert!(world.contains(id));
    assert_eq!(world.len(), 1);
}

#[test]
fn an_actor_can_be_modified_in_place() {
    let mut world = world();
    let id = world.spawn(Player::default());

    world.get_mut::<Player>(id).unwrap().health = 50;
    assert_eq!(world.get::<Player>(id).unwrap().health, 50);
}

#[test]
fn a_despawned_actor_is_gone() {
    let mut world = world();
    let id = world.spawn(Player::default());

    assert!(world.despawn(id));
    assert!(world.get::<Player>(id).is_none());
    assert!(!world.contains(id));
    assert_eq!(world.len(), 0);
}

#[test]
fn despawning_twice_is_a_no_op() {
    let mut world = world();
    let id = world.spawn(Player::default());

    assert!(world.despawn(id));
    assert!(!world.despawn(id));
}

#[test]
fn a_stale_id_does_not_resolve_to_the_actor_that_replaced_it() {
    let mut world = world();

    let first = world.spawn(Player {
        health: 100,
        ..Default::default()
    });
    world.despawn(first);

    let second = world.spawn(Player {
        health: 50,
        ..Default::default()
    });
    assert_eq!(first.index(), second.index(), "the slot was not reused");

    assert!(world.get::<Player>(first).is_none(), "the stale id resolved");
    assert!(!world.contains(first));
    assert_eq!(world.get::<Player>(second).unwrap().health, 50);
}

#[test]
fn a_reused_slot_gets_a_new_generation() {
    let mut world = world();

    let first = world.spawn(Player::default());
    world.despawn(first);
    let second = world.spawn(Player::default());

    assert_eq!(first.index(), second.index());
    assert_ne!(first.generation(), second.generation());
}

#[test]
fn different_types_live_in_different_pools() {
    let mut world = world();

    let player = world.spawn(Player::default());
    let enemy = world.spawn(Enemy::default());

    assert_eq!(world.type_count(), 2);
    assert_ne!(player.type_tag(), enemy.type_tag());

    assert_eq!(world.count::<Player>(), 1);
    assert_eq!(world.count::<Enemy>(), 1);
    assert_eq!(world.len(), 2);
}

#[test]
fn an_id_from_one_pool_does_not_resolve_in_another() {
    let mut world = world();

    let player = world.spawn(Player::default());
    let enemy = world.spawn(Enemy::default());
    assert_eq!(
        player.index(),
        enemy.index(),
        "the pools did not both start at zero"
    );

    assert!(world.get::<Enemy>(player).is_none());
    assert!(world.get::<Player>(enemy).is_none());
}

#[test]
fn despawning_reaches_the_right_pool_without_knowing_the_type() {
    let mut world = world();

    let player = world.spawn(Player::default());
    let enemy = world.spawn(Enemy::default());

    assert!(world.despawn(enemy));
    assert_eq!(world.count::<Enemy>(), 0);
    assert_eq!(world.count::<Player>(), 1, "the wrong pool was touched");
    assert!(world.get::<Player>(player).is_some());
}

#[test]
fn iteration_yields_every_actor_of_a_type_with_its_id() {
    let mut world = world();
    let ids: Vec<ActorId> = (0..5)
        .map(|i| {
            world.spawn(Player {
                health: i,
                ..Default::default()
            })
        })
        .collect();

    let mut seen: Vec<(ActorId, u32)> = world
        .iter::<Player>()
        .into_iter()
        .map(|(id, a)| (id, a.health))
        .collect();
    seen.sort_by_key(|(id, _)| id.index());

    assert_eq!(seen.len(), 5);
    for (i, (id, health)) in seen.iter().enumerate() {
        assert_eq!(*id, ids[i]);
        assert_eq!(*health, i as u32);
    }
}

#[test]
fn iteration_skips_despawned_actors() {
    let mut world = world();
    let ids: Vec<_> = (0..5).map(|_| world.spawn(Player::default())).collect();

    world.despawn(ids[1]);
    world.despawn(ids[3]);

    assert_eq!(world.iter::<Player>().len(), 3);
    assert_eq!(world.count::<Player>(), 3);
}

#[test]
fn mutable_iteration_reaches_every_actor() {
    let mut world = world();
    for _ in 0..5 {
        world.spawn(Player::default());
    }

    for id in world.ids::<Player>() {
        world.get_mut::<Player>(id).unwrap().health = 42;
    }

    assert!(world.values::<Player>().iter().all(|p| p.health == 42));
}

#[test]
fn ids_from_mutable_iteration_stay_valid() {
    let mut world = world();
    for _ in 0..3 {
        world.spawn(Player::default());
    }

    let ids: Vec<_> = world.ids::<Player>();
    for id in ids {
        assert!(world.get_mut::<Player>(id).is_some(), "{id:?} did not resolve");
        assert!(world.get::<Player>(id).is_some(), "{id:?} did not resolve");
    }
}

#[test]
fn iterating_a_type_that_was_never_spawned_yields_nothing() {
    let world = world();

    assert_eq!(world.iter::<Player>().len(), 0);
    assert_eq!(world.count::<Player>(), 0);
    assert!(world.is_empty());
}

#[test]
fn tick_runs_on_every_actor_of_the_type() {
    let mut world = world();
    for _ in 0..3 {
        world.spawn(Ticker::default());
    }

    world.tick::<Ticker>(0.016);
    world.tick::<Ticker>(0.016);
    world.fixed_tick::<Ticker>(0.016);

    assert_eq!(world.values::<Ticker>().len(), 3);
    for ticker in world.values::<Ticker>() {
        assert_eq!(ticker.ticks, 2);
        assert_eq!(ticker.fixed_ticks, 1);
    }
}

#[test]
fn the_spawn_hook_runs_when_asked_for() {
    let mut world = world();

    let plain = world.spawn(Ticker::default());
    assert!(
        !world.get::<Ticker>(plain).unwrap().spawned,
        "the hook ran unbidden"
    );

    let hooked = world.spawn_with_hook(Ticker::default());
    assert!(world.get::<Ticker>(hooked).unwrap().spawned);
}

#[test]
fn the_despawn_hook_runs_before_the_actor_is_dropped() {
    let mut world = world();
    let id = world.spawn(Ticker::default());

    assert!(world.despawn_with_hook::<Ticker>(id));
    assert!(world.get::<Ticker>(id).is_none());
    assert!(
        !world.despawn_with_hook::<Ticker>(id),
        "a second despawn succeeded"
    );
}

#[test]
fn clearing_removes_every_actor() {
    let mut world = world();
    let id = world.spawn(Player::default());
    world.spawn(Enemy::default());

    world.clear();

    assert!(world.is_empty());
    assert!(world.get::<Player>(id).is_none());
    assert_eq!(world.type_count(), 2, "the pools were dropped, not cleared");
}

#[test]
fn ids_from_before_a_clear_do_not_resolve_after_it() {
    let mut world = world();
    let old = world.spawn(Player {
        health: 100,
        ..Default::default()
    });

    world.clear();
    let new = world.spawn(Player {
        health: 1,
        ..Default::default()
    });

    assert_eq!(old.index(), new.index(), "the slot was not reused");
    assert_ne!(old.generation(), new.generation(), "the generation was reset");

    assert!(
        world.get::<Player>(old).is_none(),
        "an id from before the clear resolved"
    );
    assert_eq!(world.get::<Player>(new).unwrap().health, 1);
}

#[test]
fn generations_keep_advancing_across_repeated_clears() {
    let mut world = world();
    let mut seen = Vec::new();

    for _ in 0..10 {
        seen.push(world.spawn(Player::default()));
        world.clear();
    }

    for id in &seen {
        assert!(world.get::<Player>(*id).is_none(), "{id:?} survived a clear");
    }

    let generations: std::collections::BTreeSet<_> =
        seen.iter().map(|id| id.generation()).collect();
    assert_eq!(generations.len(), seen.len(), "a generation was reused");
}

#[test]
fn slots_are_reused_rather_than_growing_without_bound() {
    let mut world = world();

    for _ in 0..100 {
        let id = world.spawn(Player::default());
        world.despawn(id);
    }

    assert_eq!(world.len(), 0);

    let id = world.spawn(Player::default());
    assert_eq!(id.index(), 0, "slots were not reused");
}

#[test]
fn actors_can_reference_each_other_by_id() {
    let mut world = world();

    let player = world.spawn(Player {
        health: 100,
        ..Default::default()
    });
    let enemy = world.spawn(Enemy {
        target: player.index(),
        ..Default::default()
    });

    let target_index = world.get::<Enemy>(enemy).unwrap().target;
    assert_eq!(target_index, player.index());
}

#[test]
fn many_actors_of_many_types_coexist() {
    let mut world = world();

    for i in 0..1_000 {
        world.spawn(Player {
            health: i,
            ..Default::default()
        });
        world.spawn(Enemy {
            target: i,
            ..Default::default()
        });
    }

    assert_eq!(world.count::<Player>(), 1_000);
    assert_eq!(world.count::<Enemy>(), 1_000);
    assert_eq!(world.len(), 2_000);

    let sum: u32 = world.values::<Player>().iter().map(|p| p.health).sum();
    assert_eq!(sum, (0..1_000).sum::<u32>());
}

#[test]
fn spawning_after_a_clear_works() {
    let mut world = world();
    for _ in 0..5 {
        world.spawn(Player::default());
    }

    world.clear();
    assert_eq!(world.count::<Player>(), 0);

    let id = world.spawn(Player::default());
    assert!(world.contains(id), "an actor placed after a clear vanished");
    assert_eq!(world.count::<Player>(), 1);
}

#[test]
fn ids_from_before_a_clear_never_come_back() {
    let mut world = world();
    let before: Vec<_> = (0..3).map(|_| world.spawn(Player::default())).collect();

    world.clear();
    let after: Vec<_> = (0..3).map(|_| world.spawn(Player::default())).collect();

    for old in &before {
        assert!(!after.contains(old), "an id from before the clear came back");
        assert!(!world.contains(*old), "an old id is alive");
    }
}

#[test]
fn a_world_survives_many_clear_and_spawn_cycles() {
    let mut world = world();

    for round in 0..20 {
        for _ in 0..10 {
            world.spawn(Player::default());
        }
        assert_eq!(world.count::<Player>(), 10, "round {round}");
        world.clear();
    }

    assert_eq!(world.count::<Player>(), 0);
}

#[test]
fn a_value_spawned_by_name_is_read_back_by_name() {
    let mut world = world();
    let id = world.spawn_named("Player", Game::Player(Player { health: 7, ..Default::default() }));

    match world.get_named("Player", id) {
        Some(Game::Player(p)) => assert_eq!(p.health, 7),
        other => panic!("unexpected {other:?}"),
    }
    assert!(world.get_named("Enemy", id).is_none());
    assert_eq!(world.count_named("Player"), 1);
    assert_eq!(world.count_named("Enemy"), 0);
    assert_eq!(world.iter_named("Player").len(), 1);
}

#[test]
fn a_reflected_actor_can_be_rewritten_whatever_its_type() {
    let mut world = world();
    let id = world.spawn(Enemy::default());

    *world.reflect_mut(id).unwrap() = Game::Enemy(Enemy { target: 3, ..Default::default() });
    assert_eq!(world.get::<Enemy>(id).unwrap().target, 3);
    assert!(world.reflect(id).is_some());
    world.despawn(id);
    assert!(world.reflect(id).is_none());
}

#[test]
fn an_id_of_another_type_is_not_despawned_by_the_hook() {
    let mut world = world();
    let ticker = world.spawn(Ticker::default());
    let player = world.spawn(Player::default());
    // Same slot and generation, but a player's id names no ticker.
    assert_eq!(ticker.index(), player.index());
    assert_eq!(ticker.generation(), player.generation());
    assert!(!world.despawn_with_hook::<Ticker>(player));
    assert!(world.contains(ticker));
    assert!(world.contains(player));
    assert!(world.despawn_with_hook::<Ticker>(ticker));
    assert!(!world.contains(ticker));
}
