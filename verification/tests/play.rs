use raster::editor::{PlaySession as Session, PlayState as State};
use raster::{Actor, World};

#[derive(Default, Debug)]
struct Prop {
    #[allow(dead_code)]
    health: u32,
}

#[derive(Default, Debug)]
struct Light {
    #[allow(dead_code)]
    radius: u32,
}

#[derive(Debug)]
enum Scene {
    Prop(Prop),
    Light(Light),
}

impl Actor<Scene> for Prop {
    fn actor_name() -> &'static str {
        "Prop"
    }
    fn into_actor(self) -> Scene {
        Scene::Prop(self)
    }
    fn from_actor(actor: &Scene) -> Option<&Self> {
        match actor {
            Scene::Prop(p) => Some(p),
            _ => None,
        }
    }
    fn from_actor_mut(actor: &mut Scene) -> Option<&mut Self> {
        match actor {
            Scene::Prop(p) => Some(p),
            _ => None,
        }
    }
}

impl Actor<Scene> for Light {
    fn actor_name() -> &'static str {
        "Light"
    }
    fn into_actor(self) -> Scene {
        Scene::Light(self)
    }
    fn from_actor(actor: &Scene) -> Option<&Self> {
        match actor {
            Scene::Light(l) => Some(l),
            _ => None,
        }
    }
    fn from_actor_mut(actor: &mut Scene) -> Option<&mut Self> {
        match actor {
            Scene::Light(l) => Some(l),
            _ => None,
        }
    }
}

fn built() -> World<Scene> {
    let mut world = World::new();
    for i in 0..3 {
        world.spawn(Prop { health: i });
    }
    world
}

#[test]
fn a_fresh_session_is_editing() {
    let session = Session::new();
    assert_eq!(session.state(), State::Editing);
    assert!(!session.state().in_session());
    assert!(!session.has_snapshot());
}

#[test]
fn starting_takes_a_snapshot() {
    let mut session = Session::new();
    assert!(session.start(), "the caller is asked to capture the world");
    assert_eq!(session.state(), State::Playing);
    assert!(session.has_snapshot());
}

#[test]
fn stopping_without_playing_does_nothing() {
    let mut session = Session::new();
    assert!(!session.stop(), "nothing to put back");
    assert_eq!(session.state(), State::Editing);
}

#[test]
fn starting_twice_keeps_the_first_snapshot() {
    let mut session = Session::new();
    assert!(session.start());
    assert!(!session.start(), "a second capture would replace the first");
    assert!(session.stop());
}

#[test]
fn ticking_only_advances_while_playing() {
    let mut session = Session::new();
    assert!(!session.tick(), "nothing runs while editing");
    session.start();
    assert!(session.tick());
    assert_eq!(session.steps(), 1);
}

#[test]
fn pausing_freezes_the_world() {
    let mut session = Session::new();
    session.start();
    session.tick();

    session.toggle_pause();
    assert_eq!(session.state(), State::Paused);
    assert!(!session.tick(), "a pause must freeze the world");
    assert_eq!(session.steps(), 1, "the counter no longer moves");

    session.toggle_pause();
    assert!(session.tick(), "resuming must restart");
}

#[test]
fn pausing_while_editing_changes_nothing() {
    let mut session = Session::new();
    session.toggle_pause();
    assert_eq!(session.state(), State::Editing);
}

#[test]
fn a_paused_session_still_restores_on_stop() {
    let mut session = Session::new();
    session.start();
    session.toggle_pause();
    assert!(session.stop());
    assert_eq!(session.state(), State::Editing);
}

#[test]
fn the_time_resets_between_sessions() {
    let mut session = Session::new();
    session.start();
    for _ in 0..10 {
        session.tick();
    }
    session.stop();
    session.start();
    assert_eq!(session.steps(), 0);
}

#[test]
fn every_actor_of_a_world_is_listed() {
    let world = built();
    let ids = world.actor_ids();

    assert_eq!(ids.len(), 3);
    let mut unique = ids.clone();
    unique.sort();
    unique.dedup();
    assert_eq!(unique.len(), 3);
}

#[test]
fn actor_ids_covers_every_pool() {
    let mut world: World<Scene> = World::new();
    world.spawn(Prop::default());
    world.spawn(Light::default());
    world.spawn(Light::default());

    assert_eq!(world.actor_ids().len(), 3, "every pool must be walked");
}
