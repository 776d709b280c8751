//! An entity: an id and a priority-ordered list of components that share it.
use vstd::prelude::*;

use crate::component::{Component, ComponentKind, Hook, HookClock, Hooked};

verus! {

pub type EntityId = u32;

/// What the entity remembers of an attached component: the priority and kind
/// it reported when attached, and its place in the order of attachment.
pub struct Slot {
    pub priority: i32,
    pub kind: ComponentKind,
    pub order: nat,
}

/// Sorted by ascending priority, ties broken by order of attachment.
pub open spec fn sorted_stable(s: Seq<Slot>) -> bool {
    forall|i: int, j: int|
        #![trigger s[i], s[j]]
        0 <= i < j < s.len() ==> s[i].priority < s[j].priority || (s[i].priority == s[j].priority
            && s[i].order < s[j].order)
}

/// `i` is the index of the first slot of the given kind.
pub open spec fn first_of_kind(s: Seq<Slot>, kind: ComponentKind, i: int) -> bool {
    0 <= i < s.len() && s[i].kind == kind && forall|j: int| 0 <= j < i ==> s[j].kind != kind
}

/// `after` is `before` with one element inserted at index `k`.
pub open spec fn inserted_at<T>(before: Seq<T>, after: Seq<T>, k: int) -> bool {
    0 <= k <= before.len() && after == before.insert(k, after[k])
}

/// Each component's record with one more run of `hook`, the component at
/// index `j` stamped `clock + j`: one run each, in list order.
pub open spec fn ran(runs: Seq<Seq<(nat, Hook)>>, clock: nat, hook: Hook) -> Seq<Seq<(nat, Hook)>> {
    Seq::new(runs.len(), |j: int| runs[j].push(((clock + j) as nat, hook)))
}

/// Attachment orders are below `attached`: each was handed out by an earlier
/// attachment.
pub open spec fn orders_below(slots: Seq<Slot>, attached: nat) -> bool {
    forall|i: int| 0 <= i < slots.len() ==> #[trigger] slots[i].order < attached
}

/// The abstract state of an entity, components aside.
pub struct EntityView {
    pub id: EntityId,
    pub slots: Seq<Slot>,
    pub in_play: bool,
    pub ticking: bool,
    /// Each component's hook record, in list order.
    pub runs: Seq<Seq<(nat, Hook)>>,
    /// The stamp the entity's next hook run receives.
    pub clock: nat,
}

struct Attached<C> {
    priority: i32,
    kind: ComponentKind,
    order: Ghost<nat>,
    part: Hooked<C>,
}

pub struct Entity<C> {
    id: EntityId,
    components: Vec<Attached<C>>,
    in_play: bool,
    ticking: bool,
    attached_count: Ghost<nat>,
    clock: HookClock,
}

impl<C: Component> View for Entity<C> {
    type V = EntityView;

    closed spec fn view(&self) -> EntityView {
        EntityView {
            id: self.id,
            slots: self.components@.map_values(
                |a: Attached<C>| Slot { priority: a.priority, kind: a.kind, order: a.order@ },
            ),
            in_play: self.in_play,
            ticking: self.ticking,
            runs: self.components@.map_values(|a: Attached<C>| a.part.runs()),
            clock: self.clock.now(),
        }
    }
}

impl<C: Component> Entity<C> {
    /// The components, in hook order.
    pub closed spec fn parts(&self) -> Seq<C> {
        self.components@.map_values(|a: Attached<C>| a.part.value())
    }

    /// How many components were ever attached.
    pub closed spec fn attached(&self) -> nat {
        self.attached_count@
    }

    pub closed spec fn wf(&self) -> bool {
        &&& sorted_stable(self@.slots)
        &&& forall|i: int|
            0 <= i < self.components@.len() ==> #[trigger] self.components@[i].order@
                < self.attached_count@
    }

    /// A well-formed entity is sorted by priority and attachment, and its
    /// attachment orders were all handed out already.
    pub proof fn lemma_wf_facts(&self)
        requires
            self.wf(),
        ensures
            sorted_stable(self@.slots),
            orders_below(self@.slots, self.attached()),
    {
    }

    pub fn new() -> (r: Self)
        ensures
            r.wf(),
            orders_below(r@.slots, r.attached()),
            r@ == (EntityView {
                id: 0,
                slots: Seq::empty(),
                in_play: false,
                ticking: true,
                runs: Seq::empty(),
                clock: 0,
            }),
            r.parts() == Seq::<C>::empty(),
            r.attached() == 0,
    {
        let r = Entity {
            id: 0,
            components: Vec::new(),
            in_play: false,
            ticking: true,
            attached_count: Ghost(0),
            clock: HookClock::new(),
        };
        proof {
            assert(r@.slots =~= Seq::empty());
            assert(r@.runs =~= Seq::empty());
            assert(r.parts() =~= Seq::empty());
        }
        r
    }

    pub fn get_id(&self) -> (r: EntityId)
        ensures
            r == self@.id,
    {
        self.id
    }

    pub fn set_id(&mut self, id: EntityId)
        requires
            old(self).wf(),
        ensures
            final(self).wf(),
            orders_below(final(self)@.slots, final(self).attached()),
            final(self)@ == (EntityView { id, ..old(self)@ }),
            final(self).parts() == old(self).parts(),
            final(self).attached() == old(self).attached(),
    {
        self.id = id;
    }

    pub fn is_in_play(&self) -> (r: bool)
        ensures
            r == self@.in_play,
    {
        self.in_play
    }

    pub fn is_ticking(&self) -> (r: bool)
        ensures
            r == self@.ticking,
    {
        self.ticking
    }

    pub fn set_is_ticking(&mut self, is_ticking: bool)
        requires
            old(self).wf(),
        ensures
            final(self).wf(),
            orders_below(final(self)@.slots, final(self).attached()),
            final(self)@ == (EntityView { ticking: is_ticking, ..old(self)@ }),
            final(self).parts() == old(self).parts(),
            final(self).attached() == old(self).attached(),
    {
        self.ticking = is_ticking;
    }

    /// How many components are attached.
    pub fn component_count(&self) -> (r: usize)
        ensures
            r == self@.slots.len(),
    {
        self.components.len()
    }

    /// The priority of the component at `index`, in hook order.
    pub fn priority_at(&self, index: usize) -> (r: i32)
        requires
            index < self@.slots.len(),
        ensures
            r == self@.slots[index as int].priority,
    {
        self.components[index].priority
    }

    /// The component at `index`, in hook order.
    pub fn component_at(&self, index: usize) -> (r: &C)
        requires
            index < self@.slots.len(),
        ensures
            *r == self.parts()[index as int],
    {
        self.components[index].part.get()
    }

    /// Attaches a component. An entity already in play first runs the
    /// component's `enter_play`. The component goes after every component of
    /// lower or equal priority and before every one of higher priority, so the
    /// list stays sorted by priority and, within a priority, by attachment.
    pub fn add_component(&mut self, comp: C)
        requires
            old(self).wf(),
        ensures
            final(self).wf(),
            orders_below(final(self)@.slots, final(self).attached()),
            sorted_stable(final(self)@.slots),
            final(self)@.id == old(self)@.id,
            final(self)@.in_play == old(self)@.in_play,
            final(self)@.ticking == old(self)@.ticking,
            final(self).attached() == old(self).attached() + 1,
            exists|k: int|
                {
                    &&& #[trigger] inserted_at(old(self)@.slots, final(self)@.slots, k)
                    &&& inserted_at(old(self).parts(), final(self).parts(), k)
                    &&& final(self)@.slots[k].order == old(self).attached()
                    &&& forall|i: int|
                        0 <= i < k ==> #[trigger] final(self)@.slots[i].priority
                            <= final(self)@.slots[k].priority
                    &&& forall|i: int|
                        k < i < final(self)@.slots.len() ==> #[trigger] final(self)@.slots[i].priority
                            > final(self)@.slots[k].priority
                    &&& !old(self)@.in_play ==> final(self).parts()[k] == comp
                },
            old(self)@.in_play ==> final(self)@.clock == old(self)@.clock + 1,
            !old(self)@.in_play ==> final(self)@.clock == old(self)@.clock,
            exists|k: int|
                {
                    &&& #[trigger] inserted_at(old(self)@.slots, final(self)@.slots, k)
                    &&& final(self)@.runs == old(self)@.runs.insert(
                        k,
                        if old(self)@.in_play {
                            seq![(old(self)@.clock, Hook::EnterPlay)]
                        } else {
                            Seq::empty()
                        },
                    )
                },
    {
        let ghost comp_in = comp;
        let mut part = Hooked::new(comp);
        if self.in_play {
            part.enter_play(&mut self.clock);
        }
        let priority = part.get_priority();
        let kind = part.kind();
        let n = self.components.len();
        let mut k: usize = 0;
        while k < n && self.components[k].priority <= priority
            invariant
                k <= n,
                n == self.components@.len(),
                forall|j: int| 0 <= j < k ==> (#[trigger] self.components@[j]).priority <= priority,
            decreases n - k,
        {
            k = k + 1;
        }
        let ghost old_slots = self@.slots;
        let ghost old_parts = self.parts();
        let ghost order = self.attached_count@;
        let ghost old_runs = self@.runs;
        let ghost part_in = part;
        self.components.insert(k, Attached { priority, kind, order: Ghost(order), part });
        self.attached_count = Ghost(order + 1);
        proof {
            let new_slot = Slot { priority, kind, order };
            assert(self@.slots =~= old_slots.insert(k as int, new_slot));
            assert(self.parts() =~= old_parts.insert(k as int, part_in.value()));
            assert(self@.runs =~= old_runs.insert(k as int, part_in.runs()));
            assert(forall|j: int| k <= j < n ==> old_slots[j].priority > priority) by {
                if k < n {
                    assert(old_slots[k as int].priority > priority);
                    assert forall|j: int| k <= j < n implies old_slots[j].priority > priority by {
                        if j > k {
                            assert(old_slots[k as int].priority <= old_slots[j].priority);
                        }
                    }
                }
            }
            assert(forall|j: int| 0 <= j < n ==> old_slots[j].order < order);
            assert(sorted_stable(self@.slots));
            assert(inserted_at(old_slots, self@.slots, k as int));
        }
    }

    /// The first component of the given kind, in hook order.
    pub fn get_component(&self, kind: ComponentKind) -> (r: Option<&C>)
        requires
            self.wf(),
        ensures
            r is None <==> forall|i: int| 0 <= i < self@.slots.len() ==> #[trigger] self@.slots[i].kind != kind,
            r matches Some(c) ==> exists|i: int| #[trigger] first_of_kind(self@.slots, kind, i) && *c == self.parts()[i],
    {
        let n = self.components.len();
        let mut i: usize = 0;
        while i < n
            invariant
                i <= n,
                n == self.components@.len(),
                forall|j: int| 0 <= j < i ==> (#[trigger] self@.slots[j]).kind != kind,
            decreases n - i,
        {
            if self.components[i].kind == kind {
                proof {
                    assert(first_of_kind(self@.slots, kind, i as int));
                }
                return Some(self.components[i].part.get());
            }
            i = i + 1;
        }
        None
    }

    /// The first component of the given kind, in hook order, for mutation.
    pub fn get_component_mut(&mut self, kind: ComponentKind) -> (r: Option<&mut C>)
        requires
            old(self).wf(),
        ensures
            r is None <==> forall|i: int|
                0 <= i < old(self)@.slots.len() ==> #[trigger] old(self)@.slots[i].kind != kind,
            r matches Some(c) ==> exists|i: int|
                #[trigger] first_of_kind(old(self)@.slots, kind, i) && *c == old(self).parts()[i],
    {
        let n = self.components.len();
        let mut i: usize = 0;
        while i < n
            invariant
                i <= n,
                n == self.components@.len(),
                self == old(self),
                forall|j: int| 0 <= j < i ==> (#[trigger] self@.slots[j]).kind != kind,
            decreases n - i,
        {
            if self.components[i].kind == kind {
                proof {
                    assert(first_of_kind(self@.slots, kind, i as int));
                }
                return Some(self.components[i].part.get_mut());
            }
            i = i + 1;
        }
        None
    }

    /// Runs `enter_play` on every component, once each, in priority order.
    pub fn enter_play(&mut self)
        requires
            old(self).wf(),
        ensures
            final(self).wf(),
            orders_below(final(self)@.slots, final(self).attached()),
            final(self)@ == (EntityView {
                in_play: true,
                runs: ran(old(self)@.runs, old(self)@.clock, Hook::EnterPlay),
                clock: old(self)@.clock + old(self)@.runs.len(),
                ..old(self)@
            }),
            final(self).parts().len() == old(self).parts().len(),
            final(self).attached() == old(self).attached(),
    {
        self.in_play = true;
        let n = self.components.len();
        let ghost before = self.components@;
        for i in 0..n
            invariant
                n == self.components@.len(),
                before.len() == n,
                self.id == old(self).id,
                self.in_play == true,
                self.ticking == old(self).ticking,
                self.attached_count == old(self).attached_count,
                self.clock.now() == old(self)@.clock + i,
                forall|j: int|
                    0 <= j < n ==> {
                        &&& (#[trigger] self.components@[j]).priority == before[j].priority
                        &&& self.components@[j].kind == before[j].kind
                        &&& self.components@[j].order == before[j].order
                        &&& (j < i ==> self.components@[j].part.runs() == before[j].part.runs().push(((old(self)@.clock + j) as nat, Hook::EnterPlay)))
                        &&& (j >= i ==> self.components@[j].part.runs() == before[j].part.runs())
                    },
        {
            self.components[i].part.enter_play(&mut self.clock);
        }
        proof {
            assert(self@.slots =~= old(self)@.slots);
            assert(self@.runs =~= ran(old(self)@.runs, old(self)@.clock, Hook::EnterPlay));
        }
    }

    /// Runs `exit_play` on every component, once each, in priority order.
    pub fn exit_play(&mut self)
        requires
            old(self).wf(),
        ensures
            final(self).wf(),
            orders_below(final(self)@.slots, final(self).attached()),
            final(self)@ == (EntityView {
                in_play: false,
                runs: ran(old(self)@.runs, old(self)@.clock, Hook::ExitPlay),
                clock: old(self)@.clock + old(self)@.runs.len(),
                ..old(self)@
            }),
            final(self).parts().len() == old(self).parts().len(),
            final(self).attached() == old(self).attached(),
    {
        self.in_play = false;
        let n = self.components.len();
        let ghost before = self.components@;
        for i in 0..n
            invariant
                n == self.components@.len(),
                before.len() == n,
                self.id == old(self).id,
                self.in_play == false,
                self.ticking == old(self).ticking,
                self.attached_count == old(self).attached_count,
                self.clock.now() == old(self)@.clock + i,
                forall|j: int|
                    0 <= j < n ==> {
                        &&& (#[trigger] self.components@[j]).priority == before[j].priority
                        &&& self.components@[j].kind == before[j].kind
                        &&& self.components@[j].order == before[j].order
                        &&& (j < i ==> self.components@[j].part.runs() == before[j].part.runs().push(((old(self)@.clock + j) as nat, Hook::ExitPlay)))
                        &&& (j >= i ==> self.components@[j].part.runs() == before[j].part.runs())
                    },
        {
            self.components[i].part.exit_play(&mut self.clock);
        }
        proof {
            assert(self@.slots =~= old(self)@.slots);
            assert(self@.runs =~= ran(old(self)@.runs, old(self)@.clock, Hook::ExitPlay));
        }
    }

    /// Runs `tick` on every component, once each, in priority order.
    pub fn tick(&mut self, frame: &mut C::Frame)
        requires
            old(self).wf(),
        ensures
            final(self).wf(),
            orders_below(final(self)@.slots, final(self).attached()),
            final(self)@ == (EntityView {
                runs: ran(old(self)@.runs, old(self)@.clock, Hook::Tick),
                clock: old(self)@.clock + old(self)@.runs.len(),
                ..old(self)@
            }),
            final(self).parts().len() == old(self).parts().len(),
            final(self).attached() == old(self).attached(),
    {
        let n = self.components.len();
        let ghost before = self.components@;
        for i in 0..n
            invariant
                n == self.components@.len(),
                before.len() == n,
                self.id == old(self).id,
                self.in_play == old(self).in_play,
                self.ticking == old(self).ticking,
                self.attached_count == old(self).attached_count,
                self.clock.now() == old(self)@.clock + i,
                forall|j: int|
                    0 <= j < n ==> {
                        &&& (#[trigger] self.components@[j]).priority == before[j].priority
                        &&& self.components@[j].kind == before[j].kind
                        &&& self.components@[j].order == before[j].order
                        &&& (j < i ==> self.components@[j].part.runs() == before[j].part.runs().push(((old(self)@.clock + j) as nat, Hook::Tick)))
                        &&& (j >= i ==> self.components@[j].part.runs() == before[j].part.runs())
                    },
        {
            self.components[i].part.tick(frame, &mut self.clock);
        }
        proof {
            assert(self@.slots =~= old(self)@.slots);
            assert(self@.runs =~= ran(old(self)@.runs, old(self)@.clock, Hook::Tick));
        }
    }

    /// Runs `physics_tick` on every component, once each, in priority order.
    pub fn physics_tick(&mut self, frame: &mut C::Frame)
        requires
            old(self).wf(),
        ensures
            final(self).wf(),
            orders_below(final(self)@.slots, final(self).attached()),
            final(self)@ == (EntityView {
                runs: ran(old(self)@.runs, old(self)@.clock, Hook::PhysicsTick),
                clock: old(self)@.clock + old(self)@.runs.len(),
                ..old(self)@
            }),
            final(self).parts().len() == old(self).parts().len(),
            final(self).attached() == old(self).attached(),
    {
        let n = self.components.len();
        let ghost before = self.components@;
        for i in 0..n
            invariant
                n == self.components@.len(),
                before.len() == n,
                self.id == old(self).id,
                self.in_play == old(self).in_play,
                self.ticking == old(self).ticking,
                self.attached_count == old(self).attached_count,
                self.clock.now() == old(self)@.clock + i,
                forall|j: int|
                    0 <= j < n ==> {
                        &&& (#[trigger] self.components@[j]).priority == before[j].priority
                        &&& self.components@[j].kind == before[j].kind
                        &&& self.components@[j].order == before[j].order
                        &&& (j < i ==> self.components@[j].part.runs() == before[j].part.runs().push(((old(self)@.clock + j) as nat, Hook::PhysicsTick)))
                        &&& (j >= i ==> self.components@[j].part.runs() == before[j].part.runs())
                    },
        {
            self.components[i].part.physics_tick(frame, &mut self.clock);
        }
        proof {
            assert(self@.slots =~= old(self)@.slots);
            assert(self@.runs =~= ran(old(self)@.runs, old(self)@.clock, Hook::PhysicsTick));
        }
    }

    /// Runs `render_tick` on every component, once each, in priority order.
    pub fn render_tick(&mut self, frame: &mut C::Frame)
        requires
            old(self).wf(),
        ensures
            final(self).wf(),
            orders_below(final(self)@.slots, final(self).attached()),
            final(self)@ == (EntityView {
                runs: ran(old(self)@.runs, old(self)@.clock, Hook::RenderTick),
                clock: old(self)@.clock + old(self)@.runs.len(),
                ..old(self)@
            }),
            final(self).parts().len() == old(self).parts().len(),
            final(self).attached() == old(self).attached(),
    {
        let n = self.components.len();
        let ghost before = self.components@;
        for i in 0..n
            invariant
                n == self.components@.len(),
                before.len() == n,
                self.id == old(self).id,
                self.in_play == old(self).in_play,
                self.ticking == old(self).ticking,
                self.attached_count == old(self).attached_count,
                self.clock.now() == old(self)@.clock + i,
                forall|j: int|
                    0 <= j < n ==> {
                        &&& (#[trigger] self.components@[j]).priority == before[j].priority
                        &&& self.components@[j].kind == before[j].kind
                        &&& self.components@[j].order == before[j].order
                        &&& (j < i ==> self.components@[j].part.runs() == before[j].part.runs().push(((old(self)@.clock + j) as nat, Hook::RenderTick)))
                        &&& (j >= i ==> self.components@[j].part.runs() == before[j].part.runs())
                    },
        {
            self.components[i].part.render_tick(frame, &mut self.clock);
        }
        proof {
            assert(self@.slots =~= old(self)@.slots);
            assert(self@.runs =~= ran(old(self)@.runs, old(self)@.clock, Hook::RenderTick));
        }
    }
}

} // verus!
