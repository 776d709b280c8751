//! Resolution of configured key names to device key identifiers.
use vstd::prelude::*;

verus! {

/// A device key identifier (a scancode).
pub type Key = u32;

pub struct KeyEntry {
    pub name: String,
    pub key: Key,
}

/// The key names a device knows, each with its identifier.
pub struct KeyTable {
    entries: Vec<KeyEntry>,
}

impl View for KeyTable {
    type V = Map<Seq<char>, Key>;

    closed spec fn view(&self) -> Map<Seq<char>, Key> {
        Map::new(
            |n: Seq<char>| exists|i: int| 0 <= i < self.entries@.len() && self.entries@[i].name@ == n,
            |n: Seq<char>|
                self.entries@[choose|i: int|
                    0 <= i < self.entries@.len() && self.entries@[i].name@ == n].key,
        )
    }
}

impl KeyTable {
    pub closed spec fn wf(&self) -> bool {
        forall|i: int, j: int|
            0 <= i < self.entries@.len() && 0 <= j < self.entries@.len()
                && #[trigger] self.entries@[i].name@ == #[trigger] self.entries@[j].name@ ==> i == j
    }

    pub fn new() -> (r: Self)
        ensures
            r.wf(),
            r@ == Map::<Seq<char>, Key>::empty(),
    {
        let r = KeyTable { entries: Vec::new() };
        assert(r@ =~= Map::<Seq<char>, Key>::empty());
        r
    }

    /// Index of the entry with this name, if any.
    fn position(&self, name: &String) -> (r: Option<usize>)
        requires
            self.wf(),
        ensures
            r is None <==> !self@.contains_key(name@),
            r matches Some(i) ==> i < self.entries@.len() && self.entries@[i as int].name@ == name@,
    {
        let n = self.entries.len();
        let mut i: usize = 0;
        while i < n
            invariant
                i <= n,
                n == self.entries@.len(),
                forall|j: int| 0 <= j < i ==> self.entries@[j].name@ != name@,
            decreases n - i,
        {
            if self.entries[i].name == *name {
                return Some(i);
            }
            i = i + 1;
        }
        None
    }

    /// The identifier of the key with this name.
    pub fn lookup(&self, name: &String) -> (r: Option<Key>)
        requires
            self.wf(),
        ensures
            r == (if self@.contains_key(name@) { Some(self@[name@]) } else { None::<Key> }),
    {
        match self.position(name) {
            Some(i) => {
                proof {
                    let j = choose|j: int|
                        0 <= j < self.entries@.len() && self.entries@[j].name@ == name@;
                    assert(self.entries@[j].name@ == self.entries@[i as int].name@);
                }
                Some(self.entries[i].key)
            },
            None => None,
        }
    }

    /// Names a key; a name given again takes the new identifier.
    pub fn insert(&mut self, name: String, key: Key)
        requires
            old(self).wf(),
        ensures
            final(self).wf(),
            final(self)@ == old(self)@.insert(name@, key),
    {
        match self.position(&name) {
            Some(i) => {
                let ghost before = self.entries@;
                self.entries[i].key = key;
                proof {
                    assert forall|j: int| 0 <= j < before.len() implies self.entries@[j].name@
                        == before[j].name@ by {}
                    assert forall|n: Seq<char>| #[trigger] self@.contains_key(n) implies self@[n]
                        == old(self)@.insert(name@, key)[n] by {
                        let j = choose|j: int|
                            0 <= j < self.entries@.len() && self.entries@[j].name@ == n;
                        if n != name@ {
                            let k = choose|k: int| 0 <= k < before.len() && before[k].name@ == n;
                            assert(self.entries@[k].name@ == n);
                            assert(j == k);
                        } else {
                            assert(self.entries@[i as int].name@ == n);
                            assert(j == i);
                        }
                    }
                    assert(self@ =~= old(self)@.insert(name@, key));
                }
            },
            None => {
                let ghost before = self.entries@;
                let ghost name_view = name@;
                self.entries.push(KeyEntry { name, key });
                proof {
                    let last = before.len() as int;
                    assert(self.entries@[last].name@ == name_view);
                    assert forall|n: Seq<char>| #[trigger] self@.contains_key(n) implies self@[n]
                        == old(self)@.insert(name_view, key)[n] by {
                        let j = choose|j: int|
                            0 <= j < self.entries@.len() && self.entries@[j].name@ == n;
                        if n != name_view {
                            let k = choose|k: int| 0 <= k < before.len() && before[k].name@ == n;
                            assert(self.entries@[k].name@ == n);
                            assert(j == k);
                        } else {
                            assert(j == last);
                        }
                    }
                    assert forall|n: Seq<char>| #[trigger] old(self)@.insert(name_view, key).contains_key(n)
                        implies self@.contains_key(n) by {
                        if n != name_view {
                            let k = choose|k: int| 0 <= k < before.len() && before[k].name@ == n;
                            assert(self.entries@[k].name@ == n);
                        }
                    }
                    assert(self@ =~= old(self)@.insert(name_view, key));
                }
            },
        }
    }
}

} // verus!
