use vstd::prelude::*;

verus! {

/// A type that can live in a world whose actors are held as values of `A`.
///
/// `A` is the game's own sum of actor types: one variant per actor type. The
/// world files every actor under the name its type gives, and hands back typed
/// views of the stored values through `from_actor`.
pub trait Actor<A>: Sized {
    /// Whether this type states what its methods do through `name`,
    /// `wrapped` and `unwrapped`. A type that does not override it promises
    /// nothing, and the world states nothing typed of it.
    open spec fn obeys_actor_laws() -> bool {
        false
    }

    /// The name `actor_name` gives: one name per type, every time.
    open spec fn name() -> Seq<char> {
        Seq::empty()
    }

    /// The world value `into_actor` makes of this actor.
    open spec fn wrapped(self) -> A {
        vstd::pervasive::arbitrary()
    }

    /// The actor of this type a world value holds, if it holds one.
    open spec fn unwrapped(actor: A) -> Option<Self> {
        None
    }

    /// The name used in scene files and the inspector, and the pool the world
    /// keeps this type in.
    fn actor_name() -> (r: &'static str)
        ensures
            Self::obeys_actor_laws() ==> r@ == Self::name(),
    ;

    /// Wraps the actor into the world's value type; the value unwraps back
    /// to the same actor.
    fn into_actor(self) -> (r: A)
        ensures
            Self::obeys_actor_laws() ==> r == self.wrapped(),
            Self::obeys_actor_laws() ==> Self::unwrapped(r) == Some(self),
    ;

    /// This type's view of a stored value, `None` if it holds another type.
    fn from_actor(actor: &A) -> (r: Option<&Self>)
        ensures
            Self::obeys_actor_laws() ==> (r is Some <==> Self::unwrapped(*actor) is Some),
            Self::obeys_actor_laws() && r is Some ==> Self::unwrapped(*actor) == Some(*r->0),
    ;

    /// The same, to modify the actor in place: what is written through the
    /// view is wrapped back into the stored value.
    fn from_actor_mut(actor: &mut A) -> (r: Option<&mut Self>)
        ensures
            Self::obeys_actor_laws() ==> (r is Some <==> Self::unwrapped(*old(actor)) is Some),
            Self::obeys_actor_laws() && r is Some ==> Self::unwrapped(*old(actor)) == Some(*r->0),
            Self::obeys_actor_laws() && r is Some ==> *final(actor) == Self::wrapped(*final(r->0)),
            Self::obeys_actor_laws() && r is None ==> *final(actor) == *old(actor),
    ;
}

/// The lifecycle entry points. A type with nothing to do in one writes it
/// with an empty body.
///
/// No `on_render`: actors do not draw, the renderer reads their components.
pub trait Behaviour<A>: Actor<A> {
    /// What a frame's time step is measured in.
    type Step: Copy;

    /// Whether this type states what its entry points do through `ticked`,
    /// `fixed_ticked`, `spawned` and `despawned`. A type that does not
    /// override it promises nothing of them.
    open spec fn obeys_behaviour_laws() -> bool {
        false
    }

    /// What `tick` makes of the actor.
    open spec fn ticked(self, dt: Self::Step) -> Self {
        self
    }

    /// What `fixed_tick` makes of the actor.
    open spec fn fixed_ticked(self, dt: Self::Step) -> Self {
        self
    }

    /// What `on_spawn` makes of the actor.
    open spec fn spawned(self) -> Self {
        self
    }

    /// What `on_despawn` makes of the actor.
    open spec fn despawned(self) -> Self {
        self
    }

    /// Every frame, with the time since the last one.
    fn tick(&mut self, dt: Self::Step)
        ensures
            Self::obeys_behaviour_laws() ==> *final(self) == old(self).ticked(dt),
    ;

    /// At the fixed simulation rate, for physics.
    fn fixed_tick(&mut self, dt: Self::Step)
        ensures
            Self::obeys_behaviour_laws() ==> *final(self) == old(self).fixed_ticked(dt),
    ;

    /// Added to the world, after its fields are initialised.
    fn on_spawn(&mut self)
        ensures
            Self::obeys_behaviour_laws() ==> *final(self) == old(self).spawned(),
    ;

    /// Removed from the world, before its storage is freed.
    fn on_despawn(&mut self)
        ensures
            Self::obeys_behaviour_laws() ==> *final(self) == old(self).despawned(),
    ;
}

/// A type an actor holds and a subsystem must reach without knowing the actor.
pub trait Component {
    /// What the world files registrations of this component under.
    fn component_name() -> &'static str;
}

/// Implemented once per (actor, component) pair.
///
/// Yields a list rather than one reference: an actor may hold two sprites.
pub trait HasComponent<C: Component> {
    /// Every `C` this actor holds, in field order.
    fn components(&self) -> Vec<&C>;
}

} // verus!
