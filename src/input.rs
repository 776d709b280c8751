//! The input mapper: named actions and axes compiled from a declarative
//! configuration, and the per-frame state that turns raw key state into
//! edge-triggered action events and axis drives.
use vstd::prelude::*;

use crate::key_table::{Key, KeyTable};
use crate::seq_lemmas::lemma_contains_push;

verus! {

#[derive(Clone, Copy, Debug, PartialEq, Eq, Structural)]
pub enum InputEventType {
    Pressed,
    Released,
    Axis,
}

/// A configuration error found while compiling the mappings.
#[derive(Debug)]
pub enum InputError {
    /// A configured key name that the device does not know.
    UnknownKey(String),
}

/// An action as configured: its name and the names of the keys bound to it.
pub struct ActionConfig {
    pub name: String,
    pub keys: Vec<String>,
}

/// An axis as configured: its name and the names of the keys that push it
/// up and down.
pub struct AxisConfig {
    pub name: String,
    pub positive: Vec<String>,
    pub negative: Vec<String>,
}

pub struct InputConfig {
    pub action_mappings: Vec<ActionConfig>,
    pub axis_mappings: Vec<AxisConfig>,
}

pub struct ActionMapping {
    pub name: String,
    pub keys: Vec<Key>,
}

pub struct AxisMapping {
    pub name: String,
    pub positive: Vec<Key>,
    pub negative: Vec<Key>,
}

/// The compiled mapping table: every key name resolved to a device key.
pub struct InputMappings {
    pub actions: Vec<ActionMapping>,
    pub axes: Vec<AxisMapping>,
}

/// No two actions share a name, nor do two axes: the configuration maps each
/// name to one binding.
pub open spec fn config_names_distinct(c: InputConfig) -> bool {
    &&& forall|i: int, j: int|
        0 <= i < j < c.action_mappings@.len() ==> #[trigger] c.action_mappings@[i].name@
            != #[trigger] c.action_mappings@[j].name@
    &&& forall|i: int, j: int|
        0 <= i < j < c.axis_mappings@.len() ==> #[trigger] c.axis_mappings@[i].name@
            != #[trigger] c.axis_mappings@[j].name@
}

/// No two actions of the mapping share a name, nor do two axes.
pub open spec fn mapping_names_distinct(m: InputMappings) -> bool {
    &&& forall|i: int, j: int|
        0 <= i < j < m.actions@.len() ==> #[trigger] m.actions@[i].name@ != #[trigger] m.actions@[j].name@
    &&& forall|i: int, j: int|
        0 <= i < j < m.axes@.len() ==> #[trigger] m.axes@[i].name@ != #[trigger] m.axes@[j].name@
}

/// Every name in `names` is known to the table.
pub open spec fn known_all(t: Map<Seq<char>, Key>, names: Seq<String>) -> bool {
    forall|i: int| 0 <= i < names.len() ==> t.contains_key(#[trigger] names[i]@)
}

/// The keys the table gives the names, in order.
pub open spec fn resolved(t: Map<Seq<char>, Key>, names: Seq<String>) -> Seq<Key> {
    names.map_values(|n: String| t[n@])
}

/// Every key name the configuration mentions is known to the table.
pub open spec fn config_known(t: Map<Seq<char>, Key>, c: InputConfig) -> bool {
    &&& forall|i: int|
        0 <= i < c.action_mappings@.len() ==> known_all(t, (#[trigger] c.action_mappings@[i]).keys@)
    &&& forall|i: int|
        0 <= i < c.axis_mappings@.len() ==> known_all(t, (#[trigger] c.axis_mappings@[i]).positive@)
            && known_all(t, c.axis_mappings@[i].negative@)
}

/// The configuration mentions the key name `n`.
pub open spec fn config_mentions(c: InputConfig, n: Seq<char>) -> bool {
    ||| exists|i: int, j: int|
        0 <= i < c.action_mappings@.len() && 0 <= j < c.action_mappings@[i].keys@.len()
            && #[trigger] c.action_mappings@[i].keys@[j]@ == n
    ||| exists|i: int, j: int|
        0 <= i < c.axis_mappings@.len() && 0 <= j < c.axis_mappings@[i].positive@.len()
            && #[trigger] c.axis_mappings@[i].positive@[j]@ == n
    ||| exists|i: int, j: int|
        0 <= i < c.axis_mappings@.len() && 0 <= j < c.axis_mappings@[i].negative@.len()
            && #[trigger] c.axis_mappings@[i].negative@[j]@ == n
}

/// `m` is `c` with every key name replaced by its key, names and order kept.
pub open spec fn compiled_from(t: Map<Seq<char>, Key>, c: InputConfig, m: InputMappings) -> bool {
    &&& m.actions@.len() == c.action_mappings@.len()
    &&& forall|i: int|
        0 <= i < m.actions@.len() ==> (#[trigger] m.actions@[i]).name@ == c.action_mappings@[i].name@
            && m.actions@[i].keys@ == resolved(t, c.action_mappings@[i].keys@)
    &&& m.axes@.len() == c.axis_mappings@.len()
    &&& forall|i: int|
        0 <= i < m.axes@.len() ==> (#[trigger] m.axes@[i]).name@ == c.axis_mappings@[i].name@
            && m.axes@[i].positive@ == resolved(t, c.axis_mappings@[i].positive@)
            && m.axes@[i].negative@ == resolved(t, c.axis_mappings@[i].negative@)
}

/// Some action or axis of the mapping uses key `k`.
pub open spec fn uses_key(m: InputMappings, k: Key) -> bool {
    ||| exists|i: int| 0 <= i < m.actions@.len() && (#[trigger] m.actions@[i]).keys@.contains(k)
    ||| exists|i: int| 0 <= i < m.axes@.len() && (#[trigger] m.axes@[i]).positive@.contains(k)
    ||| exists|i: int| 0 <= i < m.axes@.len() && (#[trigger] m.axes@[i]).negative@.contains(k)
}

pub open spec fn used_by_actions(a: Seq<ActionMapping>, k: Key) -> bool {
    exists|i: int| 0 <= i < a.len() && (#[trigger] a[i]).keys@.contains(k)
}

pub open spec fn used_by_axes(x: Seq<AxisMapping>, k: Key) -> bool {
    exists|i: int|
        0 <= i < x.len() && ((#[trigger] x[i]).positive@.contains(k) || x[i].negative@.contains(k))
}

/// Appends the keys not present yet, each once.
fn add_new_keys(out: &mut Vec<Key>, keys: &Vec<Key>)
    requires
        old(out)@.no_duplicates(),
    ensures
        final(out)@.no_duplicates(),
        forall|k: Key| #[trigger] final(out)@.contains(k) <==> old(out)@.contains(k) || keys@.contains(k),
{
    let n = keys.len();
    let mut i: usize = 0;
    while i < n
        invariant
            i <= n,
            n == keys@.len(),
            out@.no_duplicates(),
            forall|k: Key|
                #[trigger] out@.contains(k) <==> old(out)@.contains(k) || keys@.subrange(0, i as int).contains(k),
        decreases n - i,
    {
        let k = keys[i];
        let mut present = false;
        let m = out.len();
        let mut j: usize = 0;
        while j < m
            invariant
                j <= m,
                m == out@.len(),
                present <==> out@.subrange(0, j as int).contains(k),
            decreases m - j,
        {
            if out[j] == k {
                present = true;
            }
            proof {
                assert(out@.subrange(0, j + 1) =~= out@.subrange(0, j as int).push(out@[j as int]));
                lemma_contains_push(out@.subrange(0, j as int), out@[j as int], k);
            }
            j = j + 1;
        }
        proof {
            assert(out@.subrange(0, m as int) =~= out@);
            assert(keys@.subrange(0, i + 1) =~= keys@.subrange(0, i as int).push(k));
            assert forall|x: Key| keys@.subrange(0, i + 1).contains(x) <==> keys@.subrange(0, i as int).contains(x) || x == k by {
                lemma_contains_push(keys@.subrange(0, i as int), k, x);
            }
        }
        if !present {
            let ghost before = out@;
            out.push(k);
            proof {
                assert forall|a: int, b: int| 0 <= a < out@.len() && 0 <= b < out@.len() && a != b implies out@[a] != out@[b] by {
                    if a == before.len() {
                        assert(before[b] == out@[b]);
                        assert(out@[a] == k);
                        assert(before.contains(before[b]));
                    } else if b == before.len() {
                        assert(before[a] == out@[a]);
                        assert(out@[b] == k);
                        assert(before.contains(before[a]));
                    }
                }
                assert forall|x: Key| #[trigger] out@.contains(x) <==> before.contains(x) || x == k by {
                    if out@.contains(x) && x != k {
                        let a = choose|a: int| 0 <= a < out@.len() && out@[a] == x;
                        assert(before[a] == x);
                    }
                    if before.contains(x) {
                        let a = choose|a: int| 0 <= a < before.len() && before[a] == x;
                        assert(out@[a] == x);
                    }
                    if x == k {
                        assert(out@[before.len() as int] == x);
                    }
                }
            }
        }
        i = i + 1;
    }
    proof {
        assert(keys@.subrange(0, n as int) =~= keys@);
    }
}

/// Resolves each name, or names one the table does not know.
fn resolve_keys(table: &KeyTable, names: &Vec<String>) -> (r: Result<Vec<Key>, String>)
    requires
        table.wf(),
    ensures
        r is Ok <==> known_all(table@, names@),
        r matches Ok(keys) ==> keys@ == resolved(table@, names@),
        r matches Err(n) ==> !table@.contains_key(n@) && exists|j: int|
            0 <= j < names@.len() && #[trigger] names@[j]@ == n@,
{
    let mut keys: Vec<Key> = Vec::new();
    let n = names.len();
    let mut i: usize = 0;
    while i < n
        invariant
            i <= n,
            n == names@.len(),
            table.wf(),
            known_all(table@, names@.subrange(0, i as int)),
            keys@ == resolved(table@, names@.subrange(0, i as int)),
        decreases n - i,
    {
        match table.lookup(&names[i]) {
            Some(k) => {
                proof {
                    assert(names@.subrange(0, i + 1) =~= names@.subrange(0, i as int).push(names@[i as int]));
                    assert(resolved(table@, names@.subrange(0, i + 1)) =~= resolved(table@, names@.subrange(0, i as int)).push(k));
                }
                keys.push(k);
            },
            None => {
                proof {
                    assert(names@[i as int]@ == names@[i as int]@);
                }
                return Err(names[i].clone());
            },
        }
        i = i + 1;
    }
    proof {
        assert(names@.subrange(0, n as int) =~= names@);
    }
    Ok(keys)
}

impl InputConfig {
    /// Whether no two actions share a name and no two axes do.
    pub fn has_distinct_names(&self) -> (r: bool)
        ensures
            r == config_names_distinct(*self),
    {
        let na = self.action_mappings.len();
        let mut i: usize = 0;
        while i < na
            invariant
                i <= na,
                na == self.action_mappings@.len(),
                forall|a: int, b: int|
                    0 <= a < b < na && a < i ==> #[trigger] self.action_mappings@[a].name@
                        != #[trigger] self.action_mappings@[b].name@,
            decreases na - i,
        {
            let mut j: usize = i + 1;
            while j < na
                invariant
                    i < na,
                    i + 1 <= j <= na,
                    na == self.action_mappings@.len(),
                    forall|a: int, b: int|
                        0 <= a < b < na && a < i ==> #[trigger] self.action_mappings@[a].name@
                            != #[trigger] self.action_mappings@[b].name@,
                    forall|b: int| i < b < j ==> self.action_mappings@[i as int].name@
                        != #[trigger] self.action_mappings@[b].name@,
                decreases na - j,
            {
                if self.action_mappings[i].name == self.action_mappings[j].name {
                    return false;
                }
                j = j + 1;
            }
            i = i + 1;
        }
        let nx = self.axis_mappings.len();
        let mut i: usize = 0;
        while i < nx
            invariant
                i <= nx,
                nx == self.axis_mappings@.len(),
                na == self.action_mappings@.len(),
                forall|a: int, b: int|
                    0 <= a < b < na ==> #[trigger] self.action_mappings@[a].name@
                        != #[trigger] self.action_mappings@[b].name@,
                forall|a: int, b: int|
                    0 <= a < b < nx && a < i ==> #[trigger] self.axis_mappings@[a].name@
                        != #[trigger] self.axis_mappings@[b].name@,
            decreases nx - i,
        {
            let mut j: usize = i + 1;
            while j < nx
                invariant
                    i < nx,
                    i + 1 <= j <= nx,
                    nx == self.axis_mappings@.len(),
                    forall|a: int, b: int|
                        0 <= a < b < nx && a < i ==> #[trigger] self.axis_mappings@[a].name@
                            != #[trigger] self.axis_mappings@[b].name@,
                    forall|b: int| i < b < j ==> self.axis_mappings@[i as int].name@
                        != #[trigger] self.axis_mappings@[b].name@,
                decreases nx - j,
            {
                if self.axis_mappings[i].name == self.axis_mappings[j].name {
                    return false;
                }
                j = j + 1;
            }
            i = i + 1;
        }
        true
    }
}

impl InputMappings {
    /// Compiles a configuration, resolving every key name through the table.
    /// Fails with the first unknown name met; any unknown name fails the
    /// whole load.
    pub fn from_config(config: InputConfig, table: &KeyTable) -> (r: Result<Self, InputError>)
        requires
            table.wf(),
            config_names_distinct(config),
        ensures
            r matches Ok(m) ==> mapping_names_distinct(m),
            r is Ok <==> config_known(table@, config),
            r matches Ok(m) ==> compiled_from(table@, config, m),
            r matches Err(InputError::UnknownKey(n)) ==> !table@.contains_key(n@) && config_mentions(
                config,
                n@,
            ),
    {
        let mut actions: Vec<ActionMapping> = Vec::new();
        let na = config.action_mappings.len();
        let mut i: usize = 0;
        while i < na
            invariant
                i <= na,
                na == config.action_mappings@.len(),
                table.wf(),
                actions@.len() == i,
                forall|j: int| 0 <= j < i ==> known_all(table@, (#[trigger] config.action_mappings@[j]).keys@),
                forall|j: int|
                    0 <= j < i ==> (#[trigger] actions@[j]).name@ == config.action_mappings@[j].name@
                        && actions@[j].keys@ == resolved(table@, config.action_mappings@[j].keys@),
            decreases na - i,
        {
            let action = &config.action_mappings[i];
            match resolve_keys(table, &action.keys) {
                Ok(keys) => {
                    actions.push(ActionMapping { name: action.name.clone(), keys });
                },
                Err(n) => {
                    proof {
                        let j = choose|j: int| 0 <= j < action.keys@.len() && #[trigger] action.keys@[j]@ == n@;
                        assert(config.action_mappings@[i as int].keys@[j]@ == n@);
                    }
                    return Err(InputError::UnknownKey(n));
                },
            }
            i = i + 1;
        }
        let mut axes: Vec<AxisMapping> = Vec::new();
        let nx = config.axis_mappings.len();
        let mut i: usize = 0;
        while i < nx
            invariant
                i <= nx,
                nx == config.axis_mappings@.len(),
                na == config.action_mappings@.len(),
                table.wf(),
                actions@.len() == na,
                forall|j: int| 0 <= j < na ==> known_all(table@, (#[trigger] config.action_mappings@[j]).keys@),
                forall|j: int|
                    0 <= j < na ==> (#[trigger] actions@[j]).name@ == config.action_mappings@[j].name@
                        && actions@[j].keys@ == resolved(table@, config.action_mappings@[j].keys@),
                axes@.len() == i,
                forall|j: int|
                    0 <= j < i ==> known_all(table@, (#[trigger] config.axis_mappings@[j]).positive@)
                        && known_all(table@, config.axis_mappings@[j].negative@),
                forall|j: int|
                    0 <= j < i ==> (#[trigger] axes@[j]).name@ == config.axis_mappings@[j].name@
                        && axes@[j].positive@ == resolved(table@, config.axis_mappings@[j].positive@)
                        && axes@[j].negative@ == resolved(table@, config.axis_mappings@[j].negative@),
            decreases nx - i,
        {
            let axis = &config.axis_mappings[i];
            let positive = match resolve_keys(table, &axis.positive) {
                Ok(keys) => keys,
                Err(n) => {
                    proof {
                        let j = choose|j: int| 0 <= j < axis.positive@.len() && #[trigger] axis.positive@[j]@ == n@;
                        assert(config.axis_mappings@[i as int].positive@[j]@ == n@);
                    }
                    return Err(InputError::UnknownKey(n));
                },
            };
            let negative = match resolve_keys(table, &axis.negative) {
                Ok(keys) => keys,
                Err(n) => {
                    proof {
                        let j = choose|j: int| 0 <= j < axis.negative@.len() && #[trigger] axis.negative@[j]@ == n@;
                        assert(config.axis_mappings@[i as int].negative@[j]@ == n@);
                    }
                    return Err(InputError::UnknownKey(n));
                },
            };
            axes.push(AxisMapping { name: axis.name.clone(), positive, negative });
            i = i + 1;
        }
        Ok(InputMappings { actions, axes })
    }
    /// Every key some action or axis uses, each once: the only keys polled
    /// each frame.
    pub fn relevant_keys(&self) -> (r: Vec<Key>)
        ensures
            r@.no_duplicates(),
            forall|k: Key| #[trigger] r@.contains(k) <==> uses_key(*self, k),
    {
        let mut out: Vec<Key> = Vec::new();
        let na = self.actions.len();
        let mut i: usize = 0;
        while i < na
            invariant
                i <= na,
                na == self.actions@.len(),
                out@.no_duplicates(),
                forall|k: Key| #[trigger] out@.contains(k) <==> used_by_actions(self.actions@.subrange(0, i as int), k),
            decreases na - i,
        {
            add_new_keys(&mut out, &self.actions[i].keys);
            proof {
                let a0 = self.actions@.subrange(0, i as int);
                let a1 = self.actions@.subrange(0, i + 1);
                assert forall|k: Key| #[trigger] out@.contains(k) <==> used_by_actions(a1, k) by {
                    if used_by_actions(a1, k) {
                        let j = choose|j: int| 0 <= j < a1.len() && (#[trigger] a1[j]).keys@.contains(k);
                        if j < i {
                            assert(a0[j] == a1[j]);
                        }
                    }
                    if used_by_actions(a0, k) {
                        let j = choose|j: int| 0 <= j < a0.len() && (#[trigger] a0[j]).keys@.contains(k);
                        assert(a1[j] == a0[j]);
                    }
                    if self.actions@[i as int].keys@.contains(k) {
                        assert(a1[i as int] == self.actions@[i as int]);
                    }
                }
            }
            i = i + 1;
        }
        let nx = self.axes.len();
        let mut i: usize = 0;
        while i < nx
            invariant
                i <= nx,
                nx == self.axes@.len(),
                na == self.actions@.len(),
                out@.no_duplicates(),
                forall|k: Key| #[trigger] out@.contains(k) <==> used_by_actions(self.actions@.subrange(0, na as int), k)
                    || used_by_axes(self.axes@.subrange(0, i as int), k),
            decreases nx - i,
        {
            add_new_keys(&mut out, &self.axes[i].positive);
            add_new_keys(&mut out, &self.axes[i].negative);
            proof {
                let x0 = self.axes@.subrange(0, i as int);
                let x1 = self.axes@.subrange(0, i + 1);
                assert forall|k: Key| used_by_axes(x1, k) <==> used_by_axes(x0, k)
                    || self.axes@[i as int].positive@.contains(k) || self.axes@[i as int].negative@.contains(k) by {
                    if used_by_axes(x1, k) {
                        let j = choose|j: int| 0 <= j < x1.len() && ((#[trigger] x1[j]).positive@.contains(k) || x1[j].negative@.contains(k));
                        if j < i {
                            assert(x0[j] == x1[j]);
                        }
                    }
                    if used_by_axes(x0, k) {
                        let j = choose|j: int| 0 <= j < x0.len() && ((#[trigger] x0[j]).positive@.contains(k) || x0[j].negative@.contains(k));
                        assert(x1[j] == x0[j]);
                    }
                    assert(x1[i as int] == self.axes@[i as int]);
                }
            }
            i = i + 1;
        }
        proof {
            assert(self.actions@.subrange(0, na as int) =~= self.actions@);
            assert(self.axes@.subrange(0, nx as int) =~= self.axes@);
            assert forall|k: Key| #[trigger] out@.contains(k) <==> uses_key(*self, k) by {
                if used_by_axes(self.axes@, k) {
                    let j = choose|j: int| 0 <= j < self.axes@.len() && ((#[trigger] self.axes@[j]).positive@.contains(k) || self.axes@[j].negative@.contains(k));
                    if self.axes@[j].positive@.contains(k) {
                        assert(uses_key(*self, k));
                    } else {
                        assert(uses_key(*self, k));
                    }
                }
                if uses_key(*self, k) {
                    if exists|j: int| 0 <= j < self.axes@.len() && (#[trigger] self.axes@[j]).positive@.contains(k) {
                        let j = choose|j: int| 0 <= j < self.axes@.len() && (#[trigger] self.axes@[j]).positive@.contains(k);
                        assert(used_by_axes(self.axes@, k));
                    }
                    if exists|j: int| 0 <= j < self.axes@.len() && (#[trigger] self.axes@[j]).negative@.contains(k) {
                        let j = choose|j: int| 0 <= j < self.axes@.len() && (#[trigger] self.axes@[j]).negative@.contains(k);
                        assert(used_by_axes(self.axes@, k));
                    }
                }
            }
        }
        out
    }
}

/// How a frame's held keys move an axis value.
#[derive(Clone, Copy, Debug, PartialEq, Eq, Structural)]
pub enum AxisDrive {
    /// Both directions held, or neither: the value decays toward zero.
    Settle,
    /// Only a positive key held: the value accelerates upward.
    Increase,
    /// Only a negative key held: the value accelerates downward.
    Decrease,
}

/// A `Pressed` or `Released` edge of a named action.
pub struct ActionEvent {
    pub action: String,
    pub ev_type: InputEventType,
}

/// One axis's drive for the frame; every axis gets one each frame.
pub struct AxisEvent {
    pub axis: String,
    pub drive: AxisDrive,
}

/// What one frame of input produced: the action edges, then one drive per
/// axis, both in mapping order.
pub struct InputFrame {
    pub actions: Vec<ActionEvent>,
    pub axes: Vec<AxisEvent>,
}

pub open spec fn drive_of(any_positive: bool, any_negative: bool) -> AxisDrive {
    if any_positive == any_negative {
        AxisDrive::Settle
    } else if any_positive {
        AxisDrive::Increase
    } else {
        AxisDrive::Decrease
    }
}

/// Key `k` is down in a raw keyboard snapshot indexed by key.
pub open spec fn key_down(keyboard: Seq<bool>, k: Key) -> bool {
    (k as int) < keyboard.len() && keyboard[k as int]
}

/// Some key of `keys` is in `pressed`.
pub open spec fn any_pressed(keys: Seq<Key>, pressed: Set<Key>) -> bool {
    exists|i: int| 0 <= i < keys.len() && pressed.contains(#[trigger] keys[i])
}

/// The edges an action named `name` shows on its keys, in key order: a key
/// pressed now and not before gives `Pressed`, one pressed before and not
/// now gives `Released`.
pub open spec fn key_events(name: Seq<char>, keys: Seq<Key>, now: Set<Key>, before: Set<Key>) -> Seq<
    (Seq<char>, InputEventType),
>
    decreases keys.len(),
{
    if keys.len() == 0 {
        Seq::empty()
    } else {
        let rest = key_events(name, keys.drop_last(), now, before);
        let k = keys.last();
        if now.contains(k) && !before.contains(k) {
            rest.push((name, InputEventType::Pressed))
        } else if before.contains(k) && !now.contains(k) {
            rest.push((name, InputEventType::Released))
        } else {
            rest
        }
    }
}

/// The edges of all actions, in mapping order.
pub open spec fn action_events(actions: Seq<ActionMapping>, now: Set<Key>, before: Set<Key>) -> Seq<
    (Seq<char>, InputEventType),
>
    decreases actions.len(),
{
    if actions.len() == 0 {
        Seq::empty()
    } else {
        action_events(actions.drop_last(), now, before) + key_events(
            actions.last().name@,
            actions.last().keys@,
            now,
            before,
        )
    }
}

/// An action bound to a single key shows one `Pressed` edge on the frame the
/// key goes down, one `Released` edge on the frame it comes up, and no edge
/// while it stays down or stays up.
pub proof fn lemma_single_key_action_edges(action: ActionMapping, now: Set<Key>, before: Set<Key>)
    requires
        action.keys@.len() == 1,
    ensures
        ({
            let k = action.keys@[0];
            let events = action_events(seq![action], now, before);
            &&& now.contains(k) && !before.contains(k) ==> events == seq![
                (action.name@, InputEventType::Pressed),
            ]
            &&& before.contains(k) && !now.contains(k) ==> events == seq![
                (action.name@, InputEventType::Released),
            ]
            &&& now.contains(k) == before.contains(k) ==> events.len() == 0
        }),
{
    let k = action.keys@[0];
    let name = action.name@;
    assert(seq![action].drop_last() =~= Seq::<ActionMapping>::empty());
    assert(action.keys@.drop_last() =~= Seq::<Key>::empty());
    assert(action.keys@.last() == k);
    let events = action_events(seq![action], now, before);
    assert(seq![action].last() == action);
    assert(action_events(Seq::<ActionMapping>::empty(), now, before) =~= Seq::empty());
    assert(events == action_events(seq![action].drop_last(), now, before) + key_events(
        name,
        action.keys@,
        now,
        before,
    ));
    assert(events =~= key_events(name, action.keys@, now, before));
    assert(key_events(name, action.keys@.drop_last(), now, before) =~= Seq::empty());
    if now.contains(k) && !before.contains(k) {
        assert(events =~= seq![(name, InputEventType::Pressed)]);
    }
    if before.contains(k) && !now.contains(k) {
        assert(events =~= seq![(name, InputEventType::Released)]);
    }
}

/// One drive per axis, in mapping order.
pub open spec fn axis_events(axes: Seq<AxisMapping>, now: Set<Key>) -> Seq<(Seq<char>, AxisDrive)> {
    axes.map_values(
        |a: AxisMapping|
            (a.name@, drive_of(any_pressed(a.positive@, now), any_pressed(a.negative@, now))),
    )
}

pub open spec fn action_event_views(s: Seq<ActionEvent>) -> Seq<(Seq<char>, InputEventType)> {
    s.map_values(|e: ActionEvent| (e.action@, e.ev_type))
}

pub open spec fn axis_event_views(s: Seq<AxisEvent>) -> Seq<(Seq<char>, AxisDrive)> {
    s.map_values(|e: AxisEvent| (e.axis@, e.drive))
}

/// The state an input mapper keeps between frames.
pub struct InputView {
    /// The keys polled each frame.
    pub relevant: Set<Key>,
    /// The relevant keys down this frame.
    pub pressed: Set<Key>,
    /// The relevant keys down the frame before.
    pub pressed_before: Set<Key>,
}

fn has_key(v: &Vec<Key>, k: Key) -> (r: bool)
    ensures
        r == v@.contains(k),
{
    let n = v.len();
    let mut i: usize = 0;
    while i < n
        invariant
            i <= n,
            n == v@.len(),
            forall|j: int| 0 <= j < i ==> v@[j] != k,
        decreases n - i,
    {
        if v[i] == k {
            return true;
        }
        i = i + 1;
    }
    false
}

fn any_key_pressed(keys: &Vec<Key>, pressed: &Vec<Key>) -> (r: bool)
    ensures
        r == any_pressed(keys@, pressed@.to_set()),
{
    let n = keys.len();
    let mut i: usize = 0;
    while i < n
        invariant
            i <= n,
            n == keys@.len(),
            forall|j: int| 0 <= j < i ==> !pressed@.contains(#[trigger] keys@[j]),
        decreases n - i,
    {
        if has_key(pressed, keys[i]) {
            proof {
                assert(pressed@.to_set().contains(keys@[i as int]));
            }
            return true;
        }
        i = i + 1;
    }
    proof {
        assert forall|j: int| 0 <= j < n implies !pressed@.to_set().contains(#[trigger] keys@[j]) by {
            assert(!pressed@.contains(keys@[j]));
        }
    }
    false
}

fn drive(any_positive: bool, any_negative: bool) -> (r: AxisDrive)
    ensures
        r == drive_of(any_positive, any_negative),
{
    if any_positive == any_negative {
        AxisDrive::Settle
    } else if any_positive {
        AxisDrive::Increase
    } else {
        AxisDrive::Decrease
    }
}

pub struct Input {
    mappings: InputMappings,
    relevant_keys: Vec<Key>,
    pressed_this_frame: Vec<Key>,
    pressed_last_frame: Vec<Key>,
}

impl View for Input {
    type V = InputView;

    closed spec fn view(&self) -> InputView {
        InputView {
            relevant: self.relevant_keys@.to_set(),
            pressed: self.pressed_this_frame@.to_set(),
            pressed_before: self.pressed_last_frame@.to_set(),
        }
    }
}

impl Input {
    /// The mapping table the mapper was built with.
    pub closed spec fn mappings(&self) -> InputMappings {
        self.mappings
    }

    pub closed spec fn wf(&self) -> bool {
        forall|k: Key| #[trigger] self.relevant_keys@.contains(k) <==> uses_key(self.mappings, k)
    }

    /// A well-formed mapper polls exactly the keys its mappings use.
    pub proof fn lemma_wf_facts(&self)
        requires
            self.wf(),
        ensures
            forall|k: Key| #[trigger] self@.relevant.contains(k) <==> uses_key(self.mappings(), k),
    {
        assert forall|k: Key| #[trigger] self@.relevant.contains(k) <==> uses_key(self.mappings(), k) by {
            assert(self.relevant_keys@.to_set().contains(k) == self.relevant_keys@.contains(k));
        }
    }

    /// A mapper with no key down this frame or the last.
    pub fn new(mappings: InputMappings) -> (r: Self)
        ensures
            r.wf(),
            r.mappings() == mappings,
            forall|k: Key| #[trigger] r@.relevant.contains(k) <==> uses_key(mappings, k),
            r@.pressed == Set::<Key>::empty(),
            r@.pressed_before == Set::<Key>::empty(),
    {
        let relevant_keys = mappings.relevant_keys();
        let r = Input {
            mappings,
            relevant_keys,
            pressed_this_frame: Vec::new(),
            pressed_last_frame: Vec::new(),
        };
        proof {
            assert(r@.pressed =~= Set::<Key>::empty());
            assert(r@.pressed_before =~= Set::<Key>::empty());
        }
        r
    }

    /// Rotates the pressed sets: last frame's becomes this frame's, and this
    /// frame's is read from the snapshot, polling the relevant keys only.
    fn update_pressed_keys(&mut self, keyboard: &Vec<bool>)
        requires
            old(self).wf(),
        ensures
            final(self).wf(),
            final(self).mappings() == old(self).mappings(),
            final(self)@.relevant == old(self)@.relevant,
            final(self)@.pressed_before == old(self)@.pressed,
            forall|k: Key| #[trigger] final(self)@.pressed.contains(k) <==> old(self)@.relevant.contains(k) && key_down(keyboard@, k),
    {
        let mut now: Vec<Key> = Vec::new();
        let n = self.relevant_keys.len();
        let mut i: usize = 0;
        while i < n
            invariant
                i <= n,
                n == self.relevant_keys@.len(),
                forall|k: Key| #[trigger] now@.contains(k) <==> self.relevant_keys@.subrange(0, i as int).contains(k) && key_down(keyboard@, k),
            decreases n - i,
        {
            let k = self.relevant_keys[i];
            let down = (k as usize) < keyboard.len() && keyboard[k as usize];
            let ghost before = now@;
            if down {
                now.push(k);
            }
            proof {
                assert(self.relevant_keys@.subrange(0, i + 1) =~= self.relevant_keys@.subrange(0, i as int).push(k));
                assert forall|x: Key| #[trigger] now@.contains(x) <==> self.relevant_keys@.subrange(0, i + 1).contains(x) && key_down(keyboard@, x) by {
                    lemma_contains_push(self.relevant_keys@.subrange(0, i as int), k, x);
                    if down {
                        lemma_contains_push(before, k, x);
                    }
                }
            }
            i = i + 1;
        }
        std::mem::swap(&mut self.pressed_last_frame, &mut self.pressed_this_frame);
        self.pressed_this_frame = now;
        proof {
            assert(self.relevant_keys@.subrange(0, n as int) =~= self.relevant_keys@);
        }
    }
    /// Advances one frame: rotates the pressed sets, then reports every
    /// action edge and one drive per axis. Two keys of one action that change
    /// in the same frame each give their own edge.
    pub fn tick(&mut self, keyboard: &Vec<bool>) -> (r: InputFrame)
        requires
            old(self).wf(),
        ensures
            final(self).wf(),
            final(self).mappings() == old(self).mappings(),
            final(self)@.relevant == old(self)@.relevant,
            final(self)@.pressed_before == old(self)@.pressed,
            forall|k: Key| #[trigger] final(self)@.pressed.contains(k) <==> uses_key(old(self).mappings(), k) && key_down(keyboard@, k),
            forall|k: Key| #[trigger] final(self)@.relevant.contains(k) <==> uses_key(final(self).mappings(), k),
            action_event_views(r.actions@) == action_events(
                old(self).mappings().actions@,
                final(self)@.pressed,
                old(self)@.pressed,
            ),
            axis_event_views(r.axes@) == axis_events(old(self).mappings().axes@, final(self)@.pressed),
    {
        self.update_pressed_keys(keyboard);
        let actions = self.action_edges();
        let axes = self.axis_drives();
        InputFrame { actions, axes }
    }

    fn action_edges(&self) -> (r: Vec<ActionEvent>)
        ensures
            action_event_views(r@) == action_events(self.mappings.actions@, self@.pressed, self@.pressed_before),
    {
        let ghost now = self@.pressed;
        let ghost before = self@.pressed_before;
        let ghost all = self.mappings.actions@;
        let mut out: Vec<ActionEvent> = Vec::new();
        let na = self.mappings.actions.len();
        let mut i: usize = 0;
        while i < na
            invariant
                i <= na,
                na == all.len(),
                all == self.mappings.actions@,
                now == self@.pressed,
                before == self@.pressed_before,
                action_event_views(out@) == action_events(all.subrange(0, i as int), now, before),
            decreases na - i,
        {
            let action = &self.mappings.actions[i];
            let ghost name = action.name@;
            let ghost keys = action.keys@;
            let ghost base = action_events(all.subrange(0, i as int), now, before);
            let nk = action.keys.len();
            let mut j: usize = 0;
            while j < nk
                invariant
                    j <= nk,
                    nk == keys.len(),
                    keys == action.keys@,
                    name == action.name@,
                    now == self@.pressed,
                    before == self@.pressed_before,
                    action_event_views(out@) == base + key_events(name, keys.subrange(0, j as int), now, before),
                decreases nk - j,
            {
                let k = action.keys[j];
                let down_now = has_key(&self.pressed_this_frame, k);
                let down_before = has_key(&self.pressed_last_frame, k);
                let ghost prev = out@;
                proof {
                    assert(keys.subrange(0, j + 1).drop_last() =~= keys.subrange(0, j as int));
                    assert(now.contains(k) == down_now);
                    assert(before.contains(k) == down_before);
                }
                if down_now && !down_before {
                    out.push(ActionEvent { action: action.name.clone(), ev_type: InputEventType::Pressed });
                    proof {
                        assert(action_event_views(out@) =~= action_event_views(prev).push((name, InputEventType::Pressed)));
                    }
                } else if down_before && !down_now {
                    out.push(ActionEvent { action: action.name.clone(), ev_type: InputEventType::Released });
                    proof {
                        assert(action_event_views(out@) =~= action_event_views(prev).push((name, InputEventType::Released)));
                    }
                }
                proof {
                    assert(base + key_events(name, keys.subrange(0, j + 1), now, before) =~= action_event_views(out@));
                }
                j = j + 1;
            }
            proof {
                assert(keys.subrange(0, nk as int) =~= keys);
                assert(all.subrange(0, i + 1).drop_last() =~= all.subrange(0, i as int));
                assert(all.subrange(0, i + 1).last() == all[i as int]);
            }
            i = i + 1;
        }
        proof {
            assert(all.subrange(0, na as int) =~= all);
        }
        out
    }

    fn axis_drives(&self) -> (r: Vec<AxisEvent>)
        ensures
            axis_event_views(r@) == axis_events(self.mappings.axes@, self@.pressed),
    {
        let ghost now = self@.pressed;
        let ghost all = self.mappings.axes@;
        let mut out: Vec<AxisEvent> = Vec::new();
        let nx = self.mappings.axes.len();
        let mut i: usize = 0;
        while i < nx
            invariant
                i <= nx,
                nx == all.len(),
                all == self.mappings.axes@,
                now == self@.pressed,
                axis_event_views(out@) == axis_events(all.subrange(0, i as int), now),
            decreases nx - i,
        {
            let axis = &self.mappings.axes[i];
            let any_positive = any_key_pressed(&axis.positive, &self.pressed_this_frame);
            let any_negative = any_key_pressed(&axis.negative, &self.pressed_this_frame);
            let ghost prev = out@;
            out.push(AxisEvent { axis: axis.name.clone(), drive: drive(any_positive, any_negative) });
            proof {
                assert(axis_events(all.subrange(0, i + 1), now) =~= axis_events(all.subrange(0, i as int), now).push(
                    (axis.name@, drive_of(any_positive, any_negative)),
                ));
                assert(axis_event_views(out@) =~= axis_event_views(prev).push(
                    (axis.name@, drive_of(any_positive, any_negative)),
                ));
            }
            i = i + 1;
        }
        proof {
            assert(all.subrange(0, nx as int) =~= all);
        }
        out
    }
}

} // verus!
