//! Per-component input bindings: handlers registered by action or axis name
//! and event kind, each under an id that unbinds it alone.
use vstd::prelude::*;

use crate::component::{AsAny, ComponentKind};
use crate::component_priority;
use crate::input::InputEventType;
use crate::seq_lemmas::{lemma_filter_filter, lemma_filter_prefix};

verus! {

pub type BindingId = i32;

/// An id no binding ever receives.
pub const INVALID_BINDING_ID: BindingId = -1;

/// A registered handler, handler aside.
pub struct BindingView {
    pub id: BindingId,
    pub name: Seq<char>,
    pub ev_type: InputEventType,
}

/// The bindings that receive an event of this name and kind.
pub open spec fn receives(name: Seq<char>, ev_type: InputEventType) -> spec_fn(BindingView) -> bool {
    |b: BindingView| b.name == name && b.ev_type == ev_type
}

/// Whether an unbind that names the axis kind (`axis`), the `Pressed`
/// kind (`pressed`) and the `Released` kind (`released`) reaches `t`.
pub open spec fn selected(t: InputEventType, axis: bool, pressed: bool, released: bool) -> bool {
    match t {
        InputEventType::Axis => axis,
        InputEventType::Pressed => pressed,
        InputEventType::Released => released,
    }
}

/// The bindings an unbind leaves: all but those of this name, of a selected
/// kind and, when an id is given, of that id.
pub open spec fn survives_unbind(
    name: Seq<char>,
    id: Option<BindingId>,
    axis: bool,
    pressed: bool,
    released: bool,
) -> spec_fn(BindingView) -> bool {
    |b: BindingView|
        !(b.name == name && (id is None || id == Some(b.id)) && selected(
            b.ev_type,
            axis,
            pressed,
            released,
        ))
}

/// Every binding id was handed out already, from zero up.
pub open spec fn ids_below(bound: Seq<BindingView>, next: BindingId) -> bool {
    &&& next >= 0
    &&& forall|i: int| 0 <= i < bound.len() ==> 0 <= #[trigger] bound[i].id < next
}

pub open spec fn binding_views<H>(s: Seq<(BindingView, H)>) -> Seq<BindingView> {
    s.map_values(|e: (BindingView, H)| e.0)
}

/// Unbinding removes only the bindings it names: for every name and kind,
/// the bindings that receive its events afterwards are those that did
/// before, less the ones named; an event of another name or kind reaches
/// exactly the bindings it reached before.
pub proof fn lemma_unbind_removes_only_that_binding(
    bindings: Seq<BindingView>,
    name: Seq<char>,
    id: Option<BindingId>,
    axis: bool,
    pressed: bool,
    released: bool,
    ev_name: Seq<char>,
    ev_type: InputEventType,
)
    ensures
        ({
            let keep = survives_unbind(name, id, axis, pressed, released);
            let hear = receives(ev_name, ev_type);
            &&& bindings.filter(keep).filter(hear) == bindings.filter(hear).filter(keep)
            &&& !(ev_name == name && selected(ev_type, axis, pressed, released)) ==> bindings.filter(
                keep,
            ).filter(hear) == bindings.filter(hear)
        }),
{
    let p = survives_unbind(name, id, axis, pressed, released);
    let q = receives(ev_name, ev_type);
    lemma_filter_filter(bindings, p, q);
    lemma_filter_filter(bindings, q, p);
    assert((|x: BindingView| p(x) && q(x)) =~= (|x: BindingView| q(x) && p(x)));
    if !(ev_name == name && selected(ev_type, axis, pressed, released)) {
        assert((|x: BindingView| q(x) && p(x)) =~= q);
    }
}

/// Filtering pairs by their first half, then dropping the second halves, is
/// dropping them first and filtering after.
proof fn lemma_views_of_filter<H>(s: Seq<(BindingView, H)>, p: spec_fn(BindingView) -> bool)
    ensures
        binding_views(s.filter(|e: (BindingView, H)| p(e.0))) == binding_views(s).filter(p),
    decreases s.len(),
{
    reveal(Seq::filter);
    if s.len() > 0 {
        lemma_views_of_filter(s.drop_last(), p);
        assert(binding_views(s).drop_last() =~= binding_views(s.drop_last()));
        let f = s.drop_last().filter(|e: (BindingView, H)| p(e.0));
        assert(binding_views(f.push(s.last())) =~= binding_views(f).push(s.last().0));
    }
}

struct Binding<H> {
    id: BindingId,
    name: String,
    ev_type: InputEventType,
    handler: H,
}

/// The input bindings of one component.
pub struct InputComponent<H> {
    next_binding_id: BindingId,
    bindings: Vec<Binding<H>>,
}

impl<H> AsAny for InputComponent<H> {
    fn as_any(&self) -> ComponentKind {
        ComponentKind::Input
    }
}

impl<H> InputComponent<H> {
    /// The bindings with their handlers, in order of binding.
    pub closed spec fn entries(&self) -> Seq<(BindingView, H)> {
        self.bindings@.map_values(
            |b: Binding<H>|
                (BindingView { id: b.id, name: b.name@, ev_type: b.ev_type }, b.handler),
        )
    }

    /// The bindings, in order of binding.
    pub open spec fn bound(&self) -> Seq<BindingView> {
        binding_views(self.entries())
    }

    /// The id the next binding receives.
    pub closed spec fn next_id(&self) -> BindingId {
        self.next_binding_id
    }

    /// Ids are handed out in increasing order from zero.
    pub closed spec fn wf(&self) -> bool {
        &&& self.next_binding_id >= 0
        &&& forall|i: int|
            0 <= i < self.bindings@.len() ==> 0 <= (#[trigger] self.bindings@[i]).id
                < self.next_binding_id
    }

    pub fn new() -> (r: Self)
        ensures
            r.wf(),
            ids_below(r.bound(), r.next_id()),
            r.bound() == Seq::<BindingView>::empty(),
            r.next_id() == 0,
    {
        let r = InputComponent { next_binding_id: 0, bindings: Vec::new() };
        assert(r.bound() =~= Seq::<BindingView>::empty());
        r
    }

    /// A well-formed component's binding ids were all handed out already.
    pub proof fn lemma_wf_facts(&self)
        requires
            self.wf(),
        ensures
            ids_below(self.bound(), self.next_id()),
    {
    }

    /// The id the next binding will receive.
    pub fn next_binding_id(&self) -> (r: BindingId)
        ensures
            r == self.next_id(),
    {
        self.next_binding_id
    }

    pub fn get_priority(&self) -> (r: i32)
        ensures
            r == component_priority::INPUT,
    {
        component_priority::INPUT
    }

    fn bind(&mut self, name: &str, ev_type: InputEventType, func: H) -> (r: BindingId)
        requires
            old(self).wf(),
            old(self).next_id() < i32::MAX,
        ensures
            final(self).wf(),
            ids_below(final(self).bound(), final(self).next_id()),
            r == old(self).next_id(),
            final(self).next_id() == r + 1,
            forall|i: int| 0 <= i < old(self).bound().len() ==> #[trigger] old(self).bound()[i].id < r,
            final(self).entries() == old(self).entries().push(
                (BindingView { id: r, name: name@, ev_type }, func),
            ),
    {
        let id = self.next_binding_id;
        self.next_binding_id = id + 1;
        self.bindings.push(Binding { id, name: name.to_owned(), ev_type, handler: func });
        assert(self.entries() =~= old(self).entries().push(
            (BindingView { id, name: name@, ev_type }, func),
        ));
        id
    }

    /// Binds a handler to the axis events of this name.
    pub fn bind_axis(&mut self, axis_name: &str, func: H) -> (r: BindingId)
        requires
            old(self).wf(),
            old(self).next_id() < i32::MAX,
        ensures
            final(self).wf(),
            ids_below(final(self).bound(), final(self).next_id()),
            r == old(self).next_id(),
            final(self).next_id() == r + 1,
            forall|i: int| 0 <= i < old(self).bound().len() ==> #[trigger] old(self).bound()[i].id < r,
            final(self).entries() == old(self).entries().push(
                (BindingView { id: r, name: axis_name@, ev_type: InputEventType::Axis }, func),
            ),
    {
        self.bind(axis_name, InputEventType::Axis, func)
    }

    /// Binds a handler to the `Pressed` or `Released` events of this action.
    /// The id is consumed even for the axis kind, which binds nothing.
    pub fn bind_action(&mut self, action_name: &str, event_type: InputEventType, func: H) -> (r:
        BindingId)
        requires
            old(self).wf(),
            old(self).next_id() < i32::MAX,
        ensures
            final(self).wf(),
            ids_below(final(self).bound(), final(self).next_id()),
            r == old(self).next_id(),
            final(self).next_id() == r + 1,
            forall|i: int| 0 <= i < old(self).bound().len() ==> #[trigger] old(self).bound()[i].id < r,
            event_type != InputEventType::Axis ==> final(self).entries() == old(self).entries().push(
                (BindingView { id: r, name: action_name@, ev_type: event_type }, func),
            ),
            event_type == InputEventType::Axis ==> final(self).entries() == old(self).entries(),
    {
        match event_type {
            InputEventType::Axis => {
                let id = self.next_binding_id;
                self.next_binding_id = id + 1;
                id
            },
            _ => self.bind(action_name, event_type, func),
        }
    }

    /// Removes the bindings of this name and a selected kind (of this id, when
    /// one is given), keeping the order of the rest.
    fn unbind(
        &mut self,
        name: &str,
        binding_id: Option<BindingId>,
        axis: bool,
        pressed: bool,
        released: bool,
    )
        requires
            old(self).wf(),
        ensures
            final(self).wf(),
            ids_below(final(self).bound(), final(self).next_id()),
            final(self).next_id() == old(self).next_id(),
            final(self).entries() == old(self).entries().filter(
                |e: (BindingView, H)| survives_unbind(name@, binding_id, axis, pressed, released)(e.0),
            ),
    {
        let ghost keep = |e: (BindingView, H)| survives_unbind(name@, binding_id, axis, pressed, released)(e.0);
        let ghost all = self.entries();
        let target = name.to_owned();
        let mut remaining: Vec<Binding<H>> = Vec::new();
        std::mem::swap(&mut remaining, &mut self.bindings);
        let ghost taken = remaining@;
        let n = remaining.len();
        let mut i: usize = 0;
        proof {
            reveal(Seq::filter);
            assert(self.entries() =~= all.subrange(0, 0).filter(keep));
        }
        while i < n
            invariant
                i <= n,
                n == taken.len(),
                target@ == name@,
                all == taken.map_values(
                    |b: Binding<H>|
                        (BindingView { id: b.id, name: b.name@, ev_type: b.ev_type }, b.handler),
                ),
                keep == (|e: (BindingView, H)| survives_unbind(name@, binding_id, axis, pressed, released)(e.0)),
                remaining@ == taken.subrange(i as int, n as int),
                self.entries() == all.subrange(0, i as int).filter(keep),
                self.next_binding_id == old(self).next_binding_id,
                self.next_binding_id >= 0,
                forall|j: int| 0 <= j < taken.len() ==> 0 <= (#[trigger] taken[j]).id < self.next_binding_id,
                forall|j: int|
                    0 <= j < self.bindings@.len() ==> 0 <= (#[trigger] self.bindings@[j]).id
                        < self.next_binding_id,
            decreases n - i,
        {
            let b = remaining.remove(0);
            proof {
                assert(b == taken[i as int]);
                assert(remaining@ =~= taken.subrange(i + 1, n as int));
                lemma_filter_prefix(all, keep, i as int);
            }
            let ghost before = self.entries();
            let is_selected = match b.ev_type {
                InputEventType::Axis => axis,
                InputEventType::Pressed => pressed,
                InputEventType::Released => released,
            };
            let id_matches = match binding_id {
                Some(id) => b.id == id,
                None => true,
            };
            if id_matches && b.name == target && is_selected {
                proof {
                    assert(!keep(all[i as int]));
                }
            } else {
                self.bindings.push(b);
                proof {
                    assert(keep(all[i as int]));
                    assert(self.entries() =~= before.push(all[i as int]));
                }
            }
            i = i + 1;
        }
        proof {
            assert(all.subrange(0, n as int) =~= all);
        }
    }

    /// Unbinds the axis handler with this id from this axis name.
    pub fn unbind_axis(&mut self, axis_name: &str, binding_id: BindingId)
        requires
            old(self).wf(),
        ensures
            final(self).wf(),
            ids_below(final(self).bound(), final(self).next_id()),
            final(self).next_id() == old(self).next_id(),
            final(self).entries() == old(self).entries().filter(
                |e: (BindingView, H)| survives_unbind(axis_name@, Some(binding_id), true, false, false)(e.0),
            ),
            final(self).bound() == old(self).bound().filter(survives_unbind(axis_name@, Some(binding_id), true, false, false)),
    {
        self.unbind(axis_name, Some(binding_id), true, false, false);
        proof {
            lemma_views_of_filter(old(self).entries(), survives_unbind(axis_name@, Some(binding_id), true, false, false));
        }
    }

    /// Unbinds every axis handler of this axis name.
    pub fn unbind_all_axis(&mut self, axis_name: &str)
        requires
            old(self).wf(),
        ensures
            final(self).wf(),
            ids_below(final(self).bound(), final(self).next_id()),
            final(self).next_id() == old(self).next_id(),
            final(self).entries() == old(self).entries().filter(
                |e: (BindingView, H)| survives_unbind(axis_name@, None, true, false, false)(e.0),
            ),
            final(self).bound() == old(self).bound().filter(survives_unbind(axis_name@, None, true, false, false)),
    {
        self.unbind(axis_name, None, true, false, false);
        proof {
            lemma_views_of_filter(old(self).entries(), survives_unbind(axis_name@, None, true, false, false));
        }
    }

    /// Unbinds the `Pressed` and `Released` handlers with this id from this
    /// action name.
    pub fn unbind_action(&mut self, action_name: &str, binding_id: BindingId)
        requires
            old(self).wf(),
        ensures
            final(self).wf(),
            ids_below(final(self).bound(), final(self).next_id()),
            final(self).next_id() == old(self).next_id(),
            final(self).entries() == old(self).entries().filter(
                |e: (BindingView, H)| survives_unbind(action_name@, Some(binding_id), false, true, true)(e.0),
            ),
            final(self).bound() == old(self).bound().filter(survives_unbind(action_name@, Some(binding_id), false, true, true)),
    {
        self.unbind(action_name, Some(binding_id), false, true, true);
        proof {
            lemma_views_of_filter(old(self).entries(), survives_unbind(action_name@, Some(binding_id), false, true, true));
        }
    }

    /// Unbinds every handler of this action name for one edge kind; the axis
    /// kind names no action handler.
    pub fn unbind_all_actions(&mut self, action_name: &str, event_type: InputEventType)
        requires
            old(self).wf(),
        ensures
            final(self).wf(),
            ids_below(final(self).bound(), final(self).next_id()),
            final(self).next_id() == old(self).next_id(),
            final(self).entries() == old(self).entries().filter(
                |e: (BindingView, H)| survives_unbind(
                    action_name@,
                    None,
                    false,
                    event_type == InputEventType::Pressed,
                    event_type == InputEventType::Released,
                )(e.0),
            ),
            final(self).bound() == old(self).bound().filter(
                survives_unbind(
                    action_name@,
                    None,
                    false,
                    event_type == InputEventType::Pressed,
                    event_type == InputEventType::Released,
                ),
            ),
    {
        let pressed = event_type == InputEventType::Pressed;
        let released = event_type == InputEventType::Released;
        self.unbind(action_name, None, false, pressed, released);
        proof {
            lemma_views_of_filter(
                old(self).entries(),
                survives_unbind(action_name@, None, false, pressed, released),
            );
        }
    }

    /// Removes every binding; ids keep counting up.
    pub fn clear_all_bindings(&mut self)
        requires
            old(self).wf(),
        ensures
            final(self).wf(),
            ids_below(final(self).bound(), final(self).next_id()),
            final(self).next_id() == old(self).next_id(),
            final(self).entries() == Seq::<(BindingView, H)>::empty(),
    {
        self.bindings = Vec::new();
        assert(self.entries() =~= Seq::<(BindingView, H)>::empty());
    }
    /// The handlers that receive an event of this name and kind, in order of
    /// binding.
    pub fn on_input_event(&self, ev_name: &str, ev_type: InputEventType) -> (r: Vec<&H>)
        ensures
            r@.len() == self.bound().filter(receives(ev_name@, ev_type)).len(),
            forall|i: int| 0 <= i < r@.len() ==> *r@[i] == self.entries().filter(
                |e: (BindingView, H)| receives(ev_name@, ev_type)(e.0),
            )[i].1,
    {
        let ghost all = self.entries();
        let ghost pick = |e: (BindingView, H)| receives(ev_name@, ev_type)(e.0);
        let target = ev_name.to_owned();
        let mut out: Vec<&H> = Vec::new();
        let n = self.bindings.len();
        let mut i: usize = 0;
        proof {
            reveal(Seq::filter);
        }
        while i < n
            invariant
                i <= n,
                n == all.len(),
                all == self.entries(),
                target@ == ev_name@,
                pick == (|e: (BindingView, H)| receives(ev_name@, ev_type)(e.0)),
                out@.len() == all.subrange(0, i as int).filter(pick).len(),
                forall|j: int| 0 <= j < out@.len() ==> *out@[j] == all.subrange(0, i as int).filter(pick)[j].1,
            decreases n - i,
        {
            proof {
                lemma_filter_prefix(all, pick, i as int);
            }
            let b = &self.bindings[i];
            if b.name == target && b.ev_type == ev_type {
                out.push(&b.handler);
                proof {
                    assert(pick(all[i as int]));
                }
            } else {
                proof {
                    assert(!pick(all[i as int]));
                }
            }
            i = i + 1;
        }
        proof {
            assert(all.subrange(0, n as int) =~= all);
            lemma_views_of_filter(all, receives(ev_name@, ev_type));
        }
        out
    }
}

} // verus!
