//! The component contract: lifecycle hooks, a fixed priority and a concrete kind.
use vstd::prelude::*;

use crate::component_priority;

verus! {

/// The closed set of concrete component kinds a sibling lookup can ask for.
#[derive(Clone, Copy, Debug, PartialEq, Eq, Structural)]
pub enum ComponentKind {
    Transform,
    Image,
    Input,
    /// A kind defined by the application, told apart by its tag.
    Custom(u32),
}

/// Capability-checked downcast: a component names its concrete kind, so that
/// a sibling can be looked up by kind instead of by reflection.
pub trait AsAny {
    fn as_any(&self) -> ComponentKind;
}

/// A unit of behaviour attached to an entity. Every hook is a no-op unless the
/// implementor overrides it; `Frame` carries what a frame hands to the hooks
/// (the elapsed time, the render submission queue).
pub trait Component: AsAny {
    type Frame;

    fn get_priority(&self) -> i32 {
        component_priority::DEFAULT
    }

    fn enter_play(&mut self) {
    }

    fn exit_play(&mut self) {
    }

    fn tick(&mut self, frame: &mut Self::Frame) {
    }

    fn physics_tick(&mut self, frame: &mut Self::Frame) {
    }

    fn render_tick(&mut self, frame: &mut Self::Frame) {
    }
}

/// A lifecycle or frame hook of a component.
#[derive(Clone, Copy, Debug, PartialEq, Eq, Structural)]
pub enum Hook {
    EnterPlay,
    ExitPlay,
    Tick,
    PhysicsTick,
    RenderTick,
}

/// Stamps hook runs in the order they happen. Only the hooks of `Hooked`
/// advance it.
pub struct HookClock {
    now: Ghost<nat>,
}

impl HookClock {
    /// The stamp the next hook run receives.
    pub closed spec fn now(&self) -> nat {
        self.now@
    }

    pub fn new() -> (r: Self)
        ensures
            r.now() == 0,
    {
        HookClock { now: Ghost(0) }
    }
}

/// A component together with the record of the hooks run on it, each with
/// the stamp of the clock it ran under. The record grows only by running a
/// hook through this wrapper, which runs the component's own hook.
pub struct Hooked<C> {
    inner: C,
    runs: Ghost<Seq<(nat, Hook)>>,
}

impl<C: Component> Hooked<C> {
    /// The hooks run on the component so far, in order, with their stamps.
    pub closed spec fn runs(&self) -> Seq<(nat, Hook)> {
        self.runs@
    }

    /// The component itself.
    pub closed spec fn value(&self) -> C {
        self.inner
    }

    pub fn new(inner: C) -> (r: Self)
        ensures
            r.runs() == Seq::<(nat, Hook)>::empty(),
            r.value() == inner,
    {
        Hooked { inner, runs: Ghost(Seq::empty()) }
    }

    pub fn get(&self) -> (r: &C)
        ensures
            *r == self.value(),
    {
        &self.inner
    }

    pub fn get_mut(&mut self) -> (r: &mut C)
        ensures
            *r == old(self).value(),
    {
        &mut self.inner
    }

    pub fn get_priority(&self) -> i32 {
        self.inner.get_priority()
    }

    pub fn kind(&self) -> ComponentKind {
        self.inner.as_any()
    }

    pub fn enter_play(&mut self, clock: &mut HookClock)
        ensures
            final(self).runs() == old(self).runs().push((old(clock).now(), Hook::EnterPlay)),
            final(clock).now() == old(clock).now() + 1,
    {
        self.inner.enter_play();
        self.runs = Ghost(self.runs@.push((clock.now@, Hook::EnterPlay)));
        clock.now = Ghost(clock.now@ + 1);
    }

    pub fn exit_play(&mut self, clock: &mut HookClock)
        ensures
            final(self).runs() == old(self).runs().push((old(clock).now(), Hook::ExitPlay)),
            final(clock).now() == old(clock).now() + 1,
    {
        self.inner.exit_play();
        self.runs = Ghost(self.runs@.push((clock.now@, Hook::ExitPlay)));
        clock.now = Ghost(clock.now@ + 1);
    }

    pub fn tick(&mut self, frame: &mut C::Frame, clock: &mut HookClock)
        ensures
            final(self).runs() == old(self).runs().push((old(clock).now(), Hook::Tick)),
            final(clock).now() == old(clock).now() + 1,
    {
        self.inner.tick(frame);
        self.runs = Ghost(self.runs@.push((clock.now@, Hook::Tick)));
        clock.now = Ghost(clock.now@ + 1);
    }

    pub fn physics_tick(&mut self, frame: &mut C::Frame, clock: &mut HookClock)
        ensures
            final(self).runs() == old(self).runs().push((old(clock).now(), Hook::PhysicsTick)),
            final(clock).now() == old(clock).now() + 1,
    {
        self.inner.physics_tick(frame);
        self.runs = Ghost(self.runs@.push((clock.now@, Hook::PhysicsTick)));
        clock.now = Ghost(clock.now@ + 1);
    }

    pub fn render_tick(&mut self, frame: &mut C::Frame, clock: &mut HookClock)
        ensures
            final(self).runs() == old(self).runs().push((old(clock).now(), Hook::RenderTick)),
            final(clock).now() == old(clock).now() + 1,
    {
        self.inner.render_tick(frame);
        self.runs = Ghost(self.runs@.push((clock.now@, Hook::RenderTick)));
        clock.now = Ghost(clock.now@ + 1);
    }
}

} // verus!
