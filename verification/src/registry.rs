//! The table of live participants, one entry per connection key, in the
//! order in which the connections were accepted.

use vstd::prelude::*;
use crate::participant::Participant;

verus! {

/// Why the registry refused an operation.
#[derive(Clone, Copy, Debug, PartialEq, Eq, Structural)]
pub enum RegistryError {
    /// An entry is already filed under the key.
    DuplicateKey,
    /// No entry is filed under the key.
    NotFound,
}

/// Whether some entry of `list` is filed under `key`.
pub open spec fn has_key(list: Seq<Participant>, key: u64) -> bool {
    exists|i: int| 0 <= i < list.len() && #[trigger] list[i].connection_key == key
}

/// Where in `list` the entry filed under `key` stands.
pub open spec fn position_of(list: Seq<Participant>, key: u64) -> int {
    choose|i: int| 0 <= i < list.len() && #[trigger] list[i].connection_key == key
}

/// No two entries of `list` are filed under one key.
pub open spec fn distinct_keys(list: Seq<Participant>) -> bool {
    forall|i: int, j: int|
        0 <= i < j < list.len() ==> #[trigger] list[i].connection_key
            != #[trigger] list[j].connection_key
}

/// Whether some entry of `list` carries `identity`.
pub open spec fn has_identity(list: Seq<Participant>, identity: u64) -> bool {
    exists|i: int| 0 <= i < list.len() && #[trigger] list[i].identity == identity
}

/// In a list of distinct keys, an entry is found where it stands.
pub proof fn lemma_position(list: Seq<Participant>, i: int)
    requires
        distinct_keys(list),
        0 <= i < list.len(),
    ensures
        has_key(list, list[i].connection_key),
        position_of(list, list[i].connection_key) == i,
{
    let key = list[i].connection_key;
    let found = position_of(list, key);
    assert(0 <= found < list.len() && list[found].connection_key == key);
    if found < i {
        assert(list[found].connection_key != list[i].connection_key);
    } else if i < found {
        assert(list[i].connection_key != list[found].connection_key);
    }
}

/// The live participants. The view is the list of entries, oldest first.
pub struct Registry {
    entries: Vec<Participant>,
}

impl View for Registry {
    type V = Seq<Participant>;

    closed spec fn view(&self) -> Seq<Participant> {
        self.entries@
    }
}

impl Registry {
    /// The invariant: one entry per key.
    pub open spec fn wf(&self) -> bool {
        distinct_keys(self@)
    }

    /// An empty registry.
    pub fn new() -> (registry: Registry)
        ensures
            registry@ == Seq::<Participant>::empty(),
            registry.wf(),
    {
        Registry { entries: Vec::new() }
    }

    /// Where the entry filed under `key` stands, if there is one.
    fn find(&self, key: u64) -> (found: Option<usize>)
        ensures
            found is Some <==> has_key(self@, key),
            found matches Some(i) ==> i < self@.len() && self@[i as int].connection_key == key,
    {
        let mut i: usize = 0;
        while i < self.entries.len()
            invariant
                i <= self.entries@.len(),
                forall|j: int| 0 <= j < i ==> self.entries@[j].connection_key != key,
            decreases self.entries@.len() - i,
        {
            if self.entries[i].connection_key == key {
                return Some(i);
            }
            i += 1;
        }
        None
    }

    /// The number of entries.
    pub fn len(&self) -> (n: usize)
        ensures
            n == self@.len(),
    {
        self.entries.len()
    }

    /// Whether there is no entry.
    pub fn is_empty(&self) -> (empty: bool)
        ensures
            empty <==> self@.len() == 0,
    {
        self.entries.len() == 0
    }

    /// Whether an entry is filed under `key`.
    pub fn contains(&self, key: u64) -> (present: bool)
        ensures
            present <==> has_key(self@, key),
    {
        self.find(key).is_some()
    }

    /// The entry filed under `key`.
    pub fn get(&self, key: u64) -> (entry: Option<Participant>)
        requires
            self.wf(),
        ensures
            entry is Some <==> has_key(self@, key),
            entry matches Some(p) ==> p == self@[position_of(self@, key)],
    {
        match self.find(key) {
            Some(i) => {
                proof {
                    lemma_position(self@, i as int);
                }
                Some(self.entries[i])
            },
            None => None,
        }
    }

    /// Files `participant` under `key`, behind the entries already there.
    /// A key that is taken is refused and nothing changes.
    pub fn insert(&mut self, key: u64, participant: Participant) -> (r: Result<(), RegistryError>)
        requires
            old(self).wf(),
        ensures
            final(self).wf(),
            has_key(old(self)@, key) ==> r == Err::<(), RegistryError>(RegistryError::DuplicateKey)
                && final(self)@ == old(self)@,
            !has_key(old(self)@, key) ==> r == Ok::<(), RegistryError>(()) && final(self)@ == old(
                self,
            )@.push(participant.keyed(key)),
    {
        match self.find(key) {
            Some(_) => Err(RegistryError::DuplicateKey),
            None => {
                let entry = Participant { connection_key: key, ..participant };
                self.entries.push(entry);
                Ok(())
            },
        }
    }

    /// Moves the entry filed under `key` to `(x, y)`. Where there is no such
    /// entry nothing changes.
    pub fn update_position(&mut self, key: u64, x: u32, y: u32) -> (r: Result<(), RegistryError>)
        requires
            old(self).wf(),
        ensures
            final(self).wf(),
            has_key(old(self)@, key) ==> r == Ok::<(), RegistryError>(()) && final(self)@ == old(
                self,
            )@.update(
                position_of(old(self)@, key),
                old(self)@[position_of(old(self)@, key)].moved_to(x, y),
            ),
            !has_key(old(self)@, key) ==> r == Err::<(), RegistryError>(RegistryError::NotFound)
                && final(self)@ == old(self)@,
    {
        match self.find(key) {
            Some(i) => {
                proof {
                    lemma_position(self@, i as int);
                }
                let entry = self.entries[i];
                self.entries[i] = Participant { x, y, ..entry };
                Ok(())
            },
            None => Err(RegistryError::NotFound),
        }
    }

    /// Takes out the entry filed under `key` and returns it; the others keep
    /// their order. Where there is no such entry nothing changes.
    pub fn remove(&mut self, key: u64) -> (removed: Option<Participant>)
        requires
            old(self).wf(),
        ensures
            final(self).wf(),
            !has_key(final(self)@, key),
            has_key(old(self)@, key) ==> removed == Some(old(self)@[position_of(old(self)@, key)])
                && final(self)@ == old(self)@.remove(position_of(old(self)@, key)),
            !has_key(old(self)@, key) ==> removed is None && final(self)@ == old(self)@,
    {
        match self.find(key) {
            Some(i) => {
                proof {
                    lemma_position(self@, i as int);
                }
                let entry = self.entries.remove(i);
                proof {
                    let before = old(self)@;
                    let after = self@;
                    assert forall|j: int| 0 <= j < after.len() implies #[trigger] after[j].connection_key != key by {
                        if j < i {
                            assert(before[j].connection_key != before[i as int].connection_key);
                        } else {
                            assert(before[i as int].connection_key != before[j + 1].connection_key);
                        }
                    }
                }
                Some(entry)
            },
            None => None,
        }
    }

    /// A copy of every entry, oldest first.
    pub fn snapshot(&self) -> (list: Vec<Participant>)
        ensures
            list@ == self@,
    {
        crate::message::copy_participants(&self.entries)
    }
}

} // verus!
