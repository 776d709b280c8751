//! The live entity set, with spawn and destroy requests buffered until the
//! next resolution.
use std::collections::HashSet;

use vstd::prelude::*;
use vstd::std_specs::iter::IteratorSpec;

use crate::component::{Component, Hook};
use crate::entity::{ran, Entity, EntityId, EntityView};
use crate::seq_lemmas::{
    lemma_filter_all, lemma_filter_none, lemma_filter_prefix, lemma_no_duplicates_left,
    lemma_no_duplicates_right,
};

verus! {

broadcast use vstd::std_specs::hash::group_hash_axioms;

/// The abstract state of a spawner.
pub struct SpawnerView {
    /// The id the next spawn request receives.
    pub next_id: EntityId,
    /// The entities in play, in order of admission.
    pub live: Seq<EntityView>,
    /// Spawn requests not yet resolved, in order of request.
    pub pending: Seq<EntityView>,
    /// Ids whose destruction is requested for the next resolution.
    pub doomed: Set<EntityId>,
    /// The entities the spawner let go, in order: cancelled spawn requests as
    /// they were, and destroyed entities as their `exit_play` left them.
    pub retired: Seq<EntityView>,
}

pub open spec fn ids(s: Seq<EntityView>) -> Seq<EntityId> {
    s.map_values(|e: EntityView| e.id)
}

/// Ids are unique among live and pending entities and were all handed out
/// already; every live entity is in play.
pub open spec fn spawner_wf(v: SpawnerView) -> bool {
    &&& (ids(v.live) + ids(v.pending)).no_duplicates()
    &&& forall|i: int| 0 <= i < v.live.len() ==> (#[trigger] v.live[i]).id < v.next_id
    &&& forall|i: int| 0 <= i < v.pending.len() ==> (#[trigger] v.pending[i]).id < v.next_id
    &&& forall|i: int| 0 <= i < v.live.len() ==> (#[trigger] v.live[i]).in_play
}

/// The state after a spawn request for an entity viewed as `e`.
pub open spec fn after_spawn(v: SpawnerView, e: EntityView) -> SpawnerView {
    SpawnerView {
        next_id: (v.next_id + 1) as EntityId,
        pending: v.pending.push(EntityView { id: v.next_id, ..e }),
        ..v
    }
}

pub open spec fn other_than(id: EntityId) -> spec_fn(EntityView) -> bool {
    |e: EntityView| e.id != id
}

pub open spec fn spared_by(doomed: Set<EntityId>) -> spec_fn(EntityView) -> bool {
    |e: EntityView| !doomed.contains(e.id)
}

pub open spec fn with_id(id: EntityId) -> spec_fn(EntityView) -> bool {
    |e: EntityView| e.id == id
}

pub open spec fn struck_by(doomed: Set<EntityId>) -> spec_fn(EntityView) -> bool {
    |e: EntityView| doomed.contains(e.id)
}

/// The state after a destroy request: a pending spawn with that id is
/// cancelled outright; any other id is marked for the next resolution.
pub open spec fn after_destroy(v: SpawnerView, id: EntityId) -> SpawnerView {
    if ids(v.pending).contains(id) {
        SpawnerView {
            pending: v.pending.filter(other_than(id)),
            retired: v.retired + v.pending.filter(with_id(id)),
            ..v
        }
    } else {
        SpawnerView { doomed: v.doomed.insert(id), ..v }
    }
}

/// An entity after one run of `hook` through `Entity`: every component runs
/// it once, in list order.
pub open spec fn after_hook(e: EntityView, hook: Hook) -> EntityView {
    EntityView { runs: ran(e.runs, e.clock, hook), clock: (e.clock + e.runs.len()) as nat, ..e }
}

pub open spec fn entered(s: Seq<EntityView>) -> Seq<EntityView> {
    s.map_values(|e: EntityView| EntityView { in_play: true, ..after_hook(e, Hook::EnterPlay) })
}

pub open spec fn exited(s: Seq<EntityView>) -> Seq<EntityView> {
    s.map_values(|e: EntityView| EntityView { in_play: false, ..after_hook(e, Hook::ExitPlay) })
}

/// The live set after the spawn phase of a resolution.
pub open spec fn admitted(v: SpawnerView) -> Seq<EntityView> {
    v.live + entered(v.pending)
}

/// The state after a resolution: the pending entities are admitted and
/// entered, in order; then every admitted entity whose id is marked is
/// exited and removed. Both buffers end empty.
pub open spec fn after_resolve(v: SpawnerView) -> SpawnerView {
    let all = admitted(v);
    SpawnerView {
        next_id: v.next_id,
        live: all.filter(spared_by(v.doomed)),
        pending: Seq::empty(),
        doomed: Set::empty(),
        retired: v.retired + exited(all.filter(struck_by(v.doomed))),
    }
}

pub open spec fn is_ticking() -> spec_fn(EntityView) -> bool {
    |e: EntityView| e.ticking
}

/// The entities after `hook` ran on those that are ticking.
pub open spec fn ticked(s: Seq<EntityView>, hook: Hook) -> Seq<EntityView> {
    s.map_values(|e: EntityView| if e.ticking { after_hook(e, hook) } else { e })
}

/// The entities after `hook` ran on each.
pub open spec fn all_ran(s: Seq<EntityView>, hook: Hook) -> Seq<EntityView> {
    s.map_values(|e: EntityView| after_hook(e, hook))
}

pub open spec fn views<C: Component>(s: Seq<Entity<C>>) -> Seq<EntityView> {
    s.map_values(|e: Entity<C>| e@)
}

/// Splitting a request list whose last request alone has the id.
proof fn lemma_split_last(p: Seq<EntityView>, x: EntityView, id: EntityId)
    requires
        forall|i: int| 0 <= i < p.len() ==> (#[trigger] p[i]).id != id,
        x.id == id,
    ensures
        p.push(x).filter(other_than(id)) == p,
        p.push(x).filter(with_id(id)) == seq![x],
{
    reveal(Seq::filter);
    assert(p.push(x).drop_last() =~= p);
    lemma_filter_all(p, other_than(id));
    lemma_filter_none(p, with_id(id));
    assert(Seq::<EntityView>::empty().push(x) =~= seq![x]);
}

/// Cancelling the spawn request just made restores the buffers and retires
/// the entity as it was handed in.
proof fn lemma_cancel_fresh_spawn(v: SpawnerView, e: EntityView)
    requires
        forall|i: int| 0 <= i < v.pending.len() ==> (#[trigger] v.pending[i]).id < v.next_id,
        v.next_id < u32::MAX,
    ensures
        after_destroy(after_spawn(v, e), v.next_id) == (SpawnerView {
            next_id: (v.next_id + 1) as EntityId,
            retired: v.retired.push(EntityView { id: v.next_id, ..e }),
            ..v
        }),
{
    let id = v.next_id;
    let x = EntityView { id, ..e };
    let v1 = after_spawn(v, e);
    assert(ids(v1.pending)[v.pending.len() as int] == id);
    assert(ids(v1.pending).contains(id));
    lemma_split_last(v.pending, x, id);
    assert(v.retired + seq![x] =~= v.retired.push(x));
}

/// A resolution that finds an id neither live nor pending does not admit
/// it and retires nothing under it.
proof fn lemma_resolve_skips_absent(v: SpawnerView, id: EntityId)
    requires
        forall|k: int| 0 <= k < v.live.len() ==> (#[trigger] v.live[k]).id != id,
        forall|k: int| 0 <= k < v.pending.len() ==> (#[trigger] v.pending[k]).id != id,
    ensures
        ({
            let r = after_resolve(v);
            &&& !ids(r.live).contains(id)
            &&& r.retired.subrange(0, v.retired.len() as int) == v.retired
            &&& forall|k: int|
                v.retired.len() <= k < r.retired.len() ==> (#[trigger] r.retired[k]).id != id
        }),
{
    let r = after_resolve(v);
    let all = admitted(v);
    assert forall|k: int| 0 <= k < all.len() implies (#[trigger] all[k]).id != id by {
        if k >= v.live.len() {
            assert(all[k].id == v.pending[k - v.live.len()].id);
        }
    }
    let live = all.filter(spared_by(v.doomed));
    let gone = all.filter(struck_by(v.doomed));
    assert forall|k: int| 0 <= k < live.len() implies (#[trigger] live[k]).id != id by {
        all.lemma_filter_contains_rev(spared_by(v.doomed), live[k]);
    }
    assert forall|k: int| 0 <= k < gone.len() implies (#[trigger] gone[k]).id != id by {
        all.lemma_filter_contains_rev(struck_by(v.doomed), gone[k]);
    }
    assert(!ids(r.live).contains(id)) by {
        if ids(r.live).contains(id) {
            let k = choose|k: int| 0 <= k < ids(r.live).len() && ids(r.live)[k] == id;
            assert(live[k].id == id);
        }
    }
    assert(r.retired.subrange(0, v.retired.len() as int) =~= v.retired);
    assert forall|k: int| v.retired.len() <= k < r.retired.len() implies (#[trigger] r.retired[k]).id
        != id by {
        assert(r.retired[k] == exited(gone)[k - v.retired.len()]);
        assert(r.retired[k].id == gone[k - v.retired.len()].id);
    }
}

/// A spawn request cancelled by id before the next resolution never enters
/// play: it is retired exactly as it was handed in (no hook ran on any of its
/// components, its in-play flag untouched), that resolution neither admits
/// nor retires anything else under its id, and afterwards the id is neither
/// pending nor marked, while every later spawn request receives a larger id.
pub proof fn lemma_cancelled_spawn_never_plays(v: SpawnerView, e: EntityView)
    requires
        spawner_wf(v),
        v.next_id < u32::MAX,
    ensures
        ({
            let id = v.next_id;
            let r = after_resolve(after_destroy(after_spawn(v, e), id));
            &&& !ids(r.live).contains(id)
            &&& r.retired.len() > v.retired.len()
            &&& r.retired[v.retired.len() as int] == (EntityView { id, ..e })
            &&& forall|k: int|
                v.retired.len() < k < r.retired.len() ==> (#[trigger] r.retired[k]).id != id
            &&& r.pending.len() == 0
            &&& !r.doomed.contains(id)
            &&& r.next_id > id
        }),
{
    let id = v.next_id;
    assert(forall|i: int| 0 <= i < v.pending.len() ==> (#[trigger] v.pending[i]).id < v.next_id);
    lemma_cancel_fresh_spawn(v, e);
    let v2 = after_destroy(after_spawn(v, e), id);
    assert(forall|k: int| 0 <= k < v2.live.len() ==> (#[trigger] v2.live[k]).id < id);
    assert(forall|k: int| 0 <= k < v2.pending.len() ==> (#[trigger] v2.pending[k]).id < id);
    lemma_resolve_skips_absent(v2, id);
    let r = after_resolve(v2);
    assert(r.retired[v.retired.len() as int] == r.retired.subrange(0, v2.retired.len() as int)[v.retired.len() as int]);
}

/// Resolving with both buffers empty leaves the live set (every entity with
/// its hook records), both buffers and the retired entities unchanged.
pub proof fn lemma_idle_resolve(v: SpawnerView)
    requires
        v.pending.len() == 0,
        v.doomed == Set::<EntityId>::empty(),
    ensures
        after_resolve(v) == v,
{
    assert(entered(v.pending) =~= Seq::empty());
    assert(admitted(v) =~= v.live);
    lemma_filter_all(v.live, spared_by(v.doomed));
    lemma_filter_none(v.live, struck_by(v.doomed));
    assert(exited(Seq::<EntityView>::empty()) =~= Seq::empty());
    assert(after_resolve(v).retired =~= v.retired);
    assert(after_resolve(v).pending =~= v.pending);
}

pub struct EntitySpawner<C> {
    next_entity_id: EntityId,
    entities: Vec<Entity<C>>,
    spawn_requests: Vec<Entity<C>>,
    destroy_requests: HashSet<EntityId>,
    retired: Ghost<Seq<EntityView>>,
}

impl<C: Component> View for EntitySpawner<C> {
    type V = SpawnerView;

    closed spec fn view(&self) -> SpawnerView {
        SpawnerView {
            next_id: self.next_entity_id,
            live: views(self.entities@),
            pending: views(self.spawn_requests@),
            doomed: self.destroy_requests@,
            retired: self.retired@,
        }
    }
}

impl<C: Component> EntitySpawner<C> {
    pub closed spec fn wf(&self) -> bool {
        &&& spawner_wf(self@)
        &&& forall|i: int| 0 <= i < self.entities@.len() ==> (#[trigger] self.entities@[i]).wf()
        &&& forall|i: int|
            0 <= i < self.spawn_requests@.len() ==> (#[trigger] self.spawn_requests@[i]).wf()
    }

    /// A well-formed spawner's ids are unique among live and pending
    /// entities and below the next id, and its live entities are in play.
    pub proof fn lemma_wf_facts(&self)
        requires
            self.wf(),
        ensures
            spawner_wf(self@),
    {
    }

    pub fn new() -> (r: Self)
        ensures
            r.wf(),
            spawner_wf(r@),
            r@ == (SpawnerView {
                next_id: 0,
                live: Seq::empty(),
                pending: Seq::empty(),
                doomed: Set::empty(),
                retired: Seq::empty(),
            }),
    {
        let r = EntitySpawner {
            next_entity_id: 0,
            entities: Vec::new(),
            spawn_requests: Vec::new(),
            destroy_requests: HashSet::new(),
            retired: Ghost(Seq::empty()),
        };
        proof {
            assert(r@.live =~= Seq::empty());
            assert(r@.pending =~= Seq::empty());
            assert(r@.doomed =~= Set::empty());
            assert(ids(r@.live) + ids(r@.pending) =~= Seq::empty());
        }
        r
    }

    /// Buffers a spawn request and returns the id assigned to it at once.
    pub fn spawn_entity(&mut self, entity: Entity<C>) -> (id: EntityId)
        requires
            old(self).wf(),
            entity.wf(),
            old(self)@.next_id < u32::MAX,
        ensures
            final(self).wf(),
            id == old(self)@.next_id,
            final(self)@ == after_spawn(old(self)@, entity@),
            spawner_wf(final(self)@),
            !ids(old(self)@.live).contains(id),
            !ids(old(self)@.pending).contains(id),
    {
        let mut entity = entity;
        let id = self.next_entity_id;
        self.next_entity_id = id + 1;
        entity.set_id(id);
        let ghost old_pending = self.spawn_requests@;
        self.spawn_requests.push(entity);
        proof {
            let v = old(self)@;
            assert(views(self.spawn_requests@) =~= v.pending.push(EntityView { id, ..entity@ }));
            assert(ids(self@.pending) =~= ids(v.pending).push(id));
            assert(ids(self@.live) + ids(self@.pending) =~= (ids(v.live) + ids(v.pending)).push(id));
            assert forall|i: int| 0 <= i < (ids(v.live) + ids(v.pending)).len() implies
                (ids(v.live) + ids(v.pending))[i] != id by {
                if i < ids(v.live).len() {
                    assert(v.live[i].id < id);
                } else {
                    assert(v.pending[i - ids(v.live).len()].id < id);
                }
            }
            assert(self@ == after_spawn(v, entity@));
        }
        id
    }
    /// Cancels a pending spawn request with this id, or else marks the id
    /// for destruction at the next resolution.
    #[verifier::rlimit(40)]
    pub fn destroy_entity(&mut self, entity_id: EntityId)
        requires
            old(self).wf(),
        ensures
            final(self).wf(),
            final(self)@ == after_destroy(old(self)@, entity_id),
            spawner_wf(final(self)@),
    {
        let ghost v = self@;
        let n = self.spawn_requests.len();
        let mut i: usize = 0;
        while i < n && self.spawn_requests[i].get_id() != entity_id
            invariant
                i <= n,
                n == self.spawn_requests@.len(),
                self@ == v,
                forall|j: int| 0 <= j < i ==> (#[trigger] v.pending[j]).id != entity_id,
            decreases n - i,
        {
            i = i + 1;
        }
        if i < n {
            let ghost pend = v.pending;
            let ghost pred = other_than(entity_id);
            proof {
                lemma_no_duplicates_right(ids(v.live), ids(pend));
                assert(ids(pend)[i as int] == entity_id);
                assert forall|j: int| i < j < n implies pred(#[trigger] pend[j]) by {
                    assert(ids(pend)[j] == pend[j].id);
                }
                let a = pend.subrange(0, i as int);
                let x = pend.subrange(i as int, i + 1);
                let b = pend.subrange(i + 1, n as int);
                assert(pend =~= a + x + b);
                Seq::filter_distributes_over_add(a + x, b, pred);
                Seq::filter_distributes_over_add(a, x, pred);
                lemma_filter_all(a, pred);
                lemma_filter_all(b, pred);
                lemma_filter_none(x, pred);
                assert(pend.filter(pred) =~= a + b);
                let hit = with_id(entity_id);
                assert forall|j: int| 0 <= j < a.len() implies !hit(#[trigger] a[j]) by {
                    assert(a[j] == pend[j]);
                }
                assert forall|j: int| 0 <= j < b.len() implies !hit(#[trigger] b[j]) by {
                    assert(b[j] == pend[j + i + 1]);
                }
                Seq::filter_distributes_over_add(a + x, b, hit);
                Seq::filter_distributes_over_add(a, x, hit);
                lemma_filter_none(a, hit);
                lemma_filter_none(b, hit);
                lemma_filter_all(x, hit);
                assert(pend.filter(hit) =~= x);
                assert(ids(pend).contains(entity_id));
            }
            let ghost removed = self.spawn_requests@;
            let cancelled = self.spawn_requests.remove(i);
            self.retired = Ghost(self.retired@.push(cancelled@));
            proof {
                assert(cancelled@ == pend[i as int]);
                assert(self.retired@ =~= v.retired + pend.filter(with_id(entity_id)));
                assert(views(self.spawn_requests@) =~= pend.subrange(0, i as int) + pend.subrange(i + 1, n as int));
                let all_before = ids(v.live) + ids(pend);
                let all_after = ids(self@.live) + ids(self@.pending);
                assert(all_after =~= all_before.remove(ids(v.live).len() + i));
                assert forall|j: int| 0 <= j < self.spawn_requests@.len() implies (#[trigger] self.spawn_requests@[j]).wf() by {
                    if j < i {
                        assert(self.spawn_requests@[j] == removed[j]);
                    } else {
                        assert(self.spawn_requests@[j] == removed[j + 1]);
                    }
                }
                assert forall|j: int| 0 <= j < self@.pending.len() implies (#[trigger] self@.pending[j]).id < self@.next_id by {
                    if j < i {
                        assert(self@.pending[j] == pend[j]);
                    } else {
                        assert(self@.pending[j] == pend[j + 1]);
                    }
                }
                assert(self@ == after_destroy(v, entity_id));
            }
        } else {
            proof {
                assert forall|j: int| 0 <= j < ids(v.pending).len() implies ids(v.pending)[j] != entity_id by {
                    assert(v.pending[j].id != entity_id);
                }
            }
            self.destroy_requests.insert(entity_id);
            proof {
                assert(self@ == after_destroy(v, entity_id));
            }
        }
    }
    /// Admits the pending entities, then removes the ones marked for
    /// destruction. Each phase first takes its buffer, leaving a fresh one for
    /// requests made while it runs.
    pub fn resolve_requests(&mut self)
        requires
            old(self).wf(),
        ensures
            final(self).wf(),
            final(self)@ == after_resolve(old(self)@),
            spawner_wf(final(self)@),
    {
        self.resolve_spawn_requests();
        self.resolve_destroy_requests();
    }

    /// Appends each pending entity to the live set and enters it, in order.
    fn resolve_spawn_requests(&mut self)
        requires
            old(self).wf(),
        ensures
            final(self).wf(),
            final(self)@ == (SpawnerView {
                live: admitted(old(self)@),
                pending: Seq::empty(),
                ..old(self)@
            }),
    {
        let ghost v = self@;
        let mut requests: Vec<Entity<C>> = Vec::new();
        std::mem::swap(&mut requests, &mut self.spawn_requests);
        let ghost taken = requests@;
        let n = requests.len();
        let mut i: usize = 0;
        while i < n
            invariant
                i <= n,
                n == taken.len(),
                views(taken) == v.pending,
                requests@ == taken.subrange(i as int, n as int),
                views(self.entities@) == v.live + entered(v.pending.subrange(0, i as int)),
                self.retired == old(self).retired,
                self.spawn_requests@.len() == 0,
                self.next_entity_id == v.next_id,
                self.destroy_requests == old(self).destroy_requests,
                forall|j: int| 0 <= j < taken.len() ==> (#[trigger] taken[j]).wf(),
                forall|j: int|
                    0 <= j < self.entities@.len() ==> (#[trigger] self.entities@[j]).wf(),
            decreases n - i,
        {
            let entity = requests.remove(0);
            proof {
                assert(entity == taken[i as int]);
                assert(requests@ =~= taken.subrange(i + 1, n as int));
            }
            let ghost id = entity@.id;
            let ghost entity_view = entity@;
            let ghost before = views(self.entities@);
            self.entities.push(entity);
            let ghost pushed = self.entities@;
            let last = self.entities.len() - 1;
            self.entities[last].enter_play();
            proof {
                assert(self.entities@ =~= pushed.update(last as int, self.entities@[last as int]));
                assert(self.entities@[last as int]@ == EntityView { in_play: true, ..after_hook(entity_view, Hook::EnterPlay) });
                assert(views(self.entities@) =~= before.push(EntityView { in_play: true, ..after_hook(entity_view, Hook::EnterPlay) }));
            }
            proof {
                let head = v.pending.subrange(0, i as int);
                let head_next = v.pending.subrange(0, i + 1);
                assert(head_next =~= head.push(v.pending[i as int]));
                assert(v.pending[i as int] == taken[i as int]@);
                assert(entity_view == taken[i as int]@);
                assert(entered(head_next) =~= entered(head).push(EntityView { in_play: true, ..after_hook(taken[i as int]@, Hook::EnterPlay) }));
                assert(views(self.entities@) =~= v.live + entered(head_next));
            }
            i = i + 1;
        }
        proof {
            assert(v.pending.subrange(0, n as int) =~= v.pending);
            assert(self@.pending =~= Seq::empty());
            let a = admitted(v);
            assert(ids(entered(v.pending)) =~= ids(v.pending));
            assert(ids(a) + ids(self@.pending) =~= ids(v.live) + ids(v.pending));
            assert forall|j: int| 0 <= j < a.len() implies (#[trigger] a[j]).id < v.next_id && a[j].in_play by {
                if j >= v.live.len() {
                    assert(a[j] == EntityView { in_play: true, ..after_hook(v.pending[j - v.live.len()], Hook::EnterPlay) });
                }
            }
        }
    }

    /// Exits and removes every live entity whose id is marked, keeping the
    /// order of the others.
    fn resolve_destroy_requests(&mut self)
        requires
            old(self).wf(),
            old(self)@.pending.len() == 0,
        ensures
            final(self).wf(),
            final(self)@ == (SpawnerView {
                live: old(self)@.live.filter(spared_by(old(self)@.doomed)),
                doomed: Set::empty(),
                retired: old(self)@.retired + exited(
                    old(self)@.live.filter(struck_by(old(self)@.doomed)),
                ),
                ..old(self)@
            }),
    {
        let ghost v = self@;
        let ghost all = v.live;
        let ghost spared = spared_by(v.doomed);
        let ghost struck = struck_by(v.doomed);
        let mut doomed: HashSet<EntityId> = HashSet::new();
        std::mem::swap(&mut doomed, &mut self.destroy_requests);
        let mut remaining: Vec<Entity<C>> = Vec::new();
        std::mem::swap(&mut remaining, &mut self.entities);
        let ghost taken = remaining@;
        let n = remaining.len();
        let mut i: usize = 0;
        proof {
            assert(views(self.entities@) =~= all.subrange(0, 0).filter(spared)) by {
                reveal(Seq::filter);
            }
            assert(exited(all.subrange(0, 0).filter(struck)) =~= Seq::empty()) by {
                reveal(Seq::filter);
            }
            assert(self.retired@ =~= v.retired + exited(all.subrange(0, 0).filter(struck)));
            lemma_no_duplicates_left(ids(v.live), ids(v.pending));
        }
        while i < n
            invariant
                i <= n,
                n == taken.len(),
                views(taken) == all,
                all == v.live,
                spared == spared_by(v.doomed),
                struck == struck_by(v.doomed),
                spawner_wf(v),
                ids(all).no_duplicates(),
                doomed@ == v.doomed,
                remaining@ == taken.subrange(i as int, n as int),
                views(self.entities@) == all.subrange(0, i as int).filter(spared),
                self.retired@ == v.retired + exited(all.subrange(0, i as int).filter(struck)),
                forall|j: int| 0 <= j < self.entities@.len() ==> all.subrange(0, i as int).contains(
                    #[trigger] views(self.entities@)[j]),
                ids(views(self.entities@)).no_duplicates(),
                self.spawn_requests@.len() == 0,
                self.destroy_requests@ == Set::<EntityId>::empty(),
                self.next_entity_id == v.next_id,
                forall|j: int| 0 <= j < taken.len() ==> (#[trigger] taken[j]).wf(),
                forall|j: int|
                    0 <= j < self.entities@.len() ==> (#[trigger] self.entities@[j]).wf(),
            decreases n - i,
        {
            let mut entity = remaining.remove(0);
            proof {
                assert(entity == taken[i as int]);
                assert(remaining@ =~= taken.subrange(i + 1, n as int));
                assert(entity@ == all[i as int]);
                lemma_filter_prefix(all, spared, i as int);
                lemma_filter_prefix(all, struck, i as int);
                assert(all.subrange(0, i + 1) =~= all.subrange(0, i as int).push(all[i as int]));
            }
            let ghost before = views(self.entities@);
            let id = entity.get_id();
            let is_doomed = doomed.contains(&id);
            proof {
                assert(all[i as int].id == id);
                assert(v.doomed.contains(id) == is_doomed);
                assert(struck(all[i as int]) == v.doomed.contains(all[i as int].id));
                assert(struck(all[i as int]) == is_doomed);
                assert(spared(all[i as int]) == !is_doomed);
            }
            if is_doomed {
                entity.exit_play();
                self.retired = Ghost(self.retired@.push(entity@));
                proof {
                    assert(entity@ == EntityView { in_play: false, ..after_hook(all[i as int], Hook::ExitPlay) });
                    assert(exited(all.subrange(0, i + 1).filter(struck)) =~= exited(
                        all.subrange(0, i as int).filter(struck),
                    ).push(entity@));
                    assert forall|j: int| 0 <= j < self.entities@.len() implies all.subrange(0, i + 1).contains(
                        #[trigger] views(self.entities@)[j]) by {
                        let k = choose|k: int| 0 <= k < i && all.subrange(0, i as int)[k] == views(self.entities@)[j];
                        assert(all.subrange(0, i + 1)[k] == views(self.entities@)[j]);
                    }
                }
            } else {
                self.entities.push(entity);
                proof {
                    assert(views(self.entities@) =~= before.push(all[i as int]));
                    assert(ids(views(self.entities@)) =~= ids(before).push(id));
                    assert forall|j: int| 0 <= j < before.len() implies ids(before)[j] != id by {
                        let k = choose|k: int| 0 <= k < i && all.subrange(0, i as int)[k] == before[j];
                        assert(ids(all)[k] == before[j].id);
                        assert(ids(all)[i as int] == id);
                    }
                    assert forall|j: int| 0 <= j < self.entities@.len() implies all.subrange(0, i + 1).contains(
                        #[trigger] views(self.entities@)[j]) by {
                        if j < before.len() {
                            let k = choose|k: int| 0 <= k < i && all.subrange(0, i as int)[k] == before[j];
                            assert(all.subrange(0, i + 1)[k] == before[j]);
                        } else {
                            assert(all.subrange(0, i + 1)[i as int] == all[i as int]);
                        }
                    }
                }
            }
            i = i + 1;
        }
        proof {
            assert(all.subrange(0, n as int) =~= all);
            assert(self@.doomed =~= Set::empty());
            assert(self@.pending =~= Seq::empty());
            assert(self@.pending =~= v.pending);
            assert(self@.live == all.filter(spared));
            assert(ids(self@.live) + ids(self@.pending) =~= ids(self@.live));
            assert forall|j: int| 0 <= j < self@.live.len() implies (#[trigger] self@.live[j]).id < v.next_id && self@.live[j].in_play by {
                assert(all.subrange(0, n as int).contains(views(self.entities@)[j]));
                let k = choose|k: int| 0 <= k < n && all.subrange(0, n as int)[k] == self@.live[j];
                assert(all[k] == self@.live[j]);
            }
        }
    }
    /// Ticks every live entity that is ticking, once each, in order of admission.
    pub fn tick_entities(&mut self, frame: &mut C::Frame)
        requires
            old(self).wf(),
        ensures
            final(self).wf(),
            spawner_wf(final(self)@),
            final(self)@ == (SpawnerView { live: ticked(old(self)@.live, Hook::Tick), ..old(self)@ }),
    {
        let n = self.entities.len();
        let ghost before = self.entities@;
        let ghost l = old(self)@.live;
        for i in 0..n
            invariant
                n == self.entities@.len(),
                before.len() == n,
                views(before) == l,
                l == old(self)@.live,
                self.next_entity_id == old(self).next_entity_id,
                self.spawn_requests == old(self).spawn_requests,
                self.destroy_requests == old(self).destroy_requests,
                self.retired == old(self).retired,
                forall|j: int| 0 <= j < i ==> (#[trigger] self.entities@[j])@ == ticked(l, Hook::Tick)[j],
                forall|j: int| i <= j < n ==> (#[trigger] self.entities@[j]) == before[j],
                forall|j: int| 0 <= j < n ==> (#[trigger] self.entities@[j]).wf(),
        {
            let ghost at = self.entities@;
            proof {
                assert(self.entities@[i as int]@ == l[i as int]);
            }
            if self.entities[i].is_ticking() {
                self.entities[i].tick(frame);
            }
            proof {
                assert forall|j: int| 0 <= j < n && j != i implies #[trigger] self.entities@[j] == at[j] by {}
            }
        }
        proof {
            assert(views(self.entities@) =~= ticked(l, Hook::Tick));
            let w = self@;
            assert(ids(w.live) =~= ids(l));
            assert forall|j: int| 0 <= j < w.live.len() implies (#[trigger] w.live[j]).id < w.next_id && w.live[j].in_play by {
                assert(w.live[j].id == l[j].id && w.live[j].in_play == l[j].in_play);
            }
        }
    }

    /// Runs the fixed-step hook on every live entity that is ticking, once
    /// each, in order of admission.
    pub fn physics_tick_entities(&mut self, frame: &mut C::Frame)
        requires
            old(self).wf(),
        ensures
            final(self).wf(),
            spawner_wf(final(self)@),
            final(self)@ == (SpawnerView { live: ticked(old(self)@.live, Hook::PhysicsTick), ..old(self)@ }),
    {
        let n = self.entities.len();
        let ghost before = self.entities@;
        let ghost l = old(self)@.live;
        for i in 0..n
            invariant
                n == self.entities@.len(),
                before.len() == n,
                views(before) == l,
                l == old(self)@.live,
                self.next_entity_id == old(self).next_entity_id,
                self.spawn_requests == old(self).spawn_requests,
                self.destroy_requests == old(self).destroy_requests,
                self.retired == old(self).retired,
                forall|j: int| 0 <= j < i ==> (#[trigger] self.entities@[j])@ == ticked(l, Hook::PhysicsTick)[j],
                forall|j: int| i <= j < n ==> (#[trigger] self.entities@[j]) == before[j],
                forall|j: int| 0 <= j < n ==> (#[trigger] self.entities@[j]).wf(),
        {
            let ghost at = self.entities@;
            proof {
                assert(self.entities@[i as int]@ == l[i as int]);
            }
            if self.entities[i].is_ticking() {
                self.entities[i].physics_tick(frame);
            }
            proof {
                assert forall|j: int| 0 <= j < n && j != i implies #[trigger] self.entities@[j] == at[j] by {}
            }
        }
        proof {
            assert(views(self.entities@) =~= ticked(l, Hook::PhysicsTick));
            let w = self@;
            assert(ids(w.live) =~= ids(l));
            assert forall|j: int| 0 <= j < w.live.len() implies (#[trigger] w.live[j]).id < w.next_id && w.live[j].in_play by {
                assert(w.live[j].id == l[j].id && w.live[j].in_play == l[j].in_play);
            }
        }
    }

    /// Runs the render hook on every live entity, once each, in order of
    /// admission.
    pub fn render_tick_entities(&mut self, frame: &mut C::Frame)
        requires
            old(self).wf(),
        ensures
            final(self).wf(),
            spawner_wf(final(self)@),
            final(self)@ == (SpawnerView { live: all_ran(old(self)@.live, Hook::RenderTick), ..old(self)@ }),
    {
        let n = self.entities.len();
        let ghost before = self.entities@;
        let ghost l = old(self)@.live;
        for i in 0..n
            invariant
                n == self.entities@.len(),
                before.len() == n,
                views(before) == l,
                l == old(self)@.live,
                self.next_entity_id == old(self).next_entity_id,
                self.spawn_requests == old(self).spawn_requests,
                self.destroy_requests == old(self).destroy_requests,
                self.retired == old(self).retired,
                forall|j: int| 0 <= j < i ==> (#[trigger] self.entities@[j])@ == all_ran(l, Hook::RenderTick)[j],
                forall|j: int| i <= j < n ==> (#[trigger] self.entities@[j]) == before[j],
                forall|j: int| 0 <= j < n ==> (#[trigger] self.entities@[j]).wf(),
        {
            let ghost at = self.entities@;
            proof {
                assert(self.entities@[i as int]@ == l[i as int]);
            }
            self.entities[i].render_tick(frame);
            proof {
                assert forall|j: int| 0 <= j < n && j != i implies #[trigger] self.entities@[j] == at[j] by {}
            }
        }
        proof {
            assert(views(self.entities@) =~= all_ran(l, Hook::RenderTick));
            let w = self@;
            assert(ids(w.live) =~= ids(l));
            assert forall|j: int| 0 <= j < w.live.len() implies (#[trigger] w.live[j]).id < w.next_id && w.live[j].in_play by {
                assert(w.live[j].id == l[j].id && w.live[j].in_play == l[j].in_play);
            }
        }
    }

    /// The live entities, in order of admission.
    pub fn entity_iter(&self) -> (r: std::slice::Iter<'_, Entity<C>>)
        requires
            self.wf(),
        ensures
            views(IteratorSpec::remaining(&r).unref()) == self@.live,
    {
        let r = self.entities.iter();
        proof {
            broadcast use vstd::std_specs::slice::axiom_spec_slice_iter;

            assert(self.entities@.as_ref().unref() =~= self.entities@);
        }
        r
    }

    /// The id the next spawn request will receive.
    pub fn next_entity_id(&self) -> (r: EntityId)
        ensures
            r == self@.next_id,
    {
        self.next_entity_id
    }

    /// How many entities are live.
    pub fn live_count(&self) -> (r: usize)
        ensures
            r == self@.live.len(),
    {
        self.entities.len()
    }

    /// The live entity at `index`, in order of admission.
    pub fn live_at(&self, index: usize) -> (r: &Entity<C>)
        requires
            self.wf(),
            index < self@.live.len(),
        ensures
            r@ == self@.live[index as int],
            r.wf(),
    {
        &self.entities[index]
    }

    /// How many spawn requests wait for the next resolution.
    pub fn pending_count(&self) -> (r: usize)
        ensures
            r == self@.pending.len(),
    {
        self.spawn_requests.len()
    }

    /// Whether the id is marked for destruction at the next resolution.
    pub fn is_marked_for_destroy(&self, entity_id: EntityId) -> (r: bool)
        ensures
            r == self@.doomed.contains(entity_id),
    {
        self.destroy_requests.contains(&entity_id)
    }
}

} // verus!
