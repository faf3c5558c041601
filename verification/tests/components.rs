//! Subsystems reach every component of a kind without knowing which actor
//! holds it.

use raster::actor::{Component, HasComponent};
use raster::{Actor, World};

#[derive(Default, Debug, PartialEq)]
struct Sprite {
    frame: u32,
}

impl Component for Sprite {
    fn component_name() -> &'static str {
        "Sprite"
    }
}

#[derive(Default, Debug, PartialEq)]
struct Body {
    velocity: (f32, f32),
}

impl Component for Body {
    fn component_name() -> &'static str {
        "Body"
    }
}

#[derive(Default)]
struct Player {
    sprite: Sprite,
    body: Body,
    #[allow(dead_code)]
    speed: f32,
}

/// An actor may hold two of the same component: a chest and its lid.
#[derive(Default)]
struct Chest {
    sprite: Sprite,
    lid: Sprite,
}

enum Game {
    Player(Player),
    Chest(Chest),
}

impl Actor<Game> for Player {
    fn actor_name() -> &'static str {
        "Player"
    }
    fn into_actor(self) -> Game {
        Game::Player(self)
    }
    fn from_actor(actor: &Game) -> Option<&Self> {
        match actor {
            Game::Player(p) => Some(p),
            _ => None,
        }
    }
    fn from_actor_mut(actor: &mut Game) -> Option<&mut Self> {
        match actor {
            Game::Player(p) => Some(p),
            _ => None,
        }
    }
}

impl Actor<Game> for Chest {
    fn actor_name() -> &'static str {
        "Chest"
    }
    fn into_actor(self) -> Game {
        Game::Chest(self)
    }
    fn from_actor(actor: &Game) -> Option<&Self> {
        match actor {
            Game::Chest(c) => Some(c),
            _ => None,
        }
    }
    fn from_actor_mut(actor: &mut Game) -> Option<&mut Self> {
        match actor {
            Game::Chest(c) => Some(c),
            _ => None,
        }
    }
}

impl HasComponent<Sprite> for Player {
    fn components(&self) -> Vec<&Sprite> {
        vec![&self.sprite]
    }
}

impl HasComponent<Body> for Player {
    fn components(&self) -> Vec<&Body> {
        vec![&self.body]
    }
}

impl HasComponent<Sprite> for Chest {
    fn components(&self) -> Vec<&Sprite> {
        vec![&self.sprite, &self.lid]
    }
}

impl HasComponent<Body> for Chest {
    fn components(&self) -> Vec<&Body> {
        Vec::new()
    }
}

impl HasComponent<Sprite> for Game {
    fn components(&self) -> Vec<&Sprite> {
        match self {
            Game::Player(p) => HasComponent::<Sprite>::components(p),
            Game::Chest(c) => HasComponent::<Sprite>::components(c),
        }
    }
}

impl HasComponent<Body> for Game {
    fn components(&self) -> Vec<&Body> {
        match self {
            Game::Player(p) => HasComponent::<Body>::components(p),
            Game::Chest(c) => HasComponent::<Body>::components(c),
        }
    }
}

fn world_with_actors() -> World<Game> {
    let mut world = World::new();
    world.register_component::<Player, Sprite>();
    world.register_component::<Player, Body>();
    world.register_component::<Chest, Sprite>();

    world.spawn(Player {
        sprite: Sprite { frame: 1 },
        body: Body {
            velocity: (1.0, 0.0),
        },
        speed: 90.0,
    });
    world.spawn(Player {
        sprite: Sprite { frame: 2 },
        body: Body {
            velocity: (0.0, 1.0),
        },
        speed: 60.0,
    });
    world.spawn(Chest {
        sprite: Sprite { frame: 10 },
        lid: Sprite { frame: 11 },
    });

    world
}

#[test]
fn every_component_is_reached_whatever_actor_holds_it() {
    let world = world_with_actors();

    let mut frames: Vec<u32> = world
        .each_component::<Sprite>()
        .iter()
        .map(|(_, sprite)| sprite.frame)
        .collect();
    frames.sort_unstable();

    assert_eq!(frames, vec![1, 2, 10, 11]);
}

#[test]
fn an_actor_holding_two_of_a_component_yields_both() {
    let chest = Chest {
        sprite: Sprite { frame: 10 },
        lid: Sprite { frame: 11 },
    };

    let frames: Vec<u32> = HasComponent::<Sprite>::components(&chest)
        .iter()
        .map(|s| s.frame)
        .collect();
    assert_eq!(frames, vec![10, 11]);
}

#[test]
fn each_component_reports_the_owning_actor() {
    let mut world: World<Game> = World::new();
    world.register_component::<Player, Sprite>();

    let id = world.spawn(Player {
        sprite: Sprite { frame: 7 },
        ..Default::default()
    });

    let seen: Vec<_> = world
        .each_component::<Sprite>()
        .iter()
        .map(|(owner, sprite)| (*owner, sprite.frame))
        .collect();

    assert_eq!(seen, vec![(id, 7)]);
    assert!(
        world.get::<Player>(seen[0].0).is_some(),
        "the id did not resolve"
    );
}

#[test]
fn component_types_do_not_leak_into_each_other() {
    let world = world_with_actors();

    assert_eq!(world.each_component::<Sprite>().len(), 4, "two players, a chest and its lid");
    assert_eq!(world.each_component::<Body>().len(), 2, "one per player");
}

#[test]
fn a_despawned_actor_stops_contributing_its_components() {
    let mut world: World<Game> = World::new();
    world.register_component::<Player, Sprite>();

    let first = world.spawn(Player {
        sprite: Sprite { frame: 1 },
        ..Default::default()
    });
    world.spawn(Player {
        sprite: Sprite { frame: 2 },
        ..Default::default()
    });

    world.despawn(first);

    let frames: Vec<u32> = world
        .each_component::<Sprite>()
        .iter()
        .map(|(_, s)| s.frame)
        .collect();

    assert_eq!(frames, vec![2]);
}

#[test]
fn an_unregistered_actor_type_contributes_nothing() {
    let mut world: World<Game> = World::new();
    world.spawn(Player {
        sprite: Sprite { frame: 1 },
        ..Default::default()
    });

    let count = world.each_component::<Sprite>().len();

    assert_eq!(count, 0, "an unregistered type contributed components");
}

#[test]
fn registering_a_type_that_never_spawns_is_harmless() {
    let mut world: World<Game> = World::new();
    world.register_component::<Player, Sprite>();

    let count = world.each_component::<Sprite>().len();

    assert_eq!(count, 0);
    assert_eq!(world.type_count(), 1, "registration should create the pool");
}

#[test]
fn clearing_the_world_leaves_no_components() {
    let mut world = world_with_actors();
    world.clear();

    assert_eq!(world.each_component::<Sprite>().len(), 0);
}

#[test]
fn iteration_holds_up_at_scale() {
    let mut world: World<Game> = World::new();
    world.register_component::<Player, Sprite>();
    world.register_component::<Chest, Sprite>();

    for i in 0..5_000 {
        world.spawn(Player {
            sprite: Sprite { frame: i },
            ..Default::default()
        });
        world.spawn(Chest {
            sprite: Sprite { frame: i },
            lid: Sprite { frame: i },
        });
    }

    let mut count = 0u32;
    let mut sum = 0u64;
    for (_, sprite) in world.each_component::<Sprite>() {
        count += 1;
        sum += u64::from(sprite.frame);
    }

    assert_eq!(count, 15_000);
    assert_eq!(sum, 3 * (0..5_000u64).sum::<u64>());
}

#[test]
fn an_actor_without_the_component_is_skipped() {
    let world = world_with_actors();
    // The chest holds no Body; only the two players do.
    assert_eq!(world.each_component::<Body>().len(), 2);
}

/// A component no actor type is registered for.
#[derive(Default)]
struct Unused {
    #[allow(dead_code)]
    value: u32,
}

impl Component for Unused {
    fn component_name() -> &'static str {
        "Unused"
    }
}

impl HasComponent<Unused> for Game {
    fn components(&self) -> Vec<&Unused> {
        Vec::new()
    }
}

#[test]
fn asking_for_a_component_nobody_holds_yields_nothing() {
    let world = world_with_actors();
    assert_eq!(world.each_component::<Unused>().len(), 0);
}
