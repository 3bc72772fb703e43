//! The outbound queues, one per connection, and the rule by which a message
//! is handed to all of them but one.

use vstd::prelude::*;
use crate::message::{models, Message, MessageModel};

verus! {

/// The messages waiting to be written to one connection, oldest first.
pub struct OutboundQueue {
    key: u64,
    pending: Vec<Message>,
}

/// The queues after `message` went to every target but `exclude`.
pub open spec fn delivered(
    queues: Map<u64, Seq<MessageModel>>,
    exclude: u64,
    message: MessageModel,
) -> Map<u64, Seq<MessageModel>> {
    Map::new(
        |k: u64| queues.contains_key(k),
        |k: u64|
            if k == exclude {
                queues[k]
            } else {
                queues[k].push(message)
            },
    )
}

/// The table of broadcast targets. The view maps each registered connection
/// key to what waits in its queue, oldest first.
pub struct Broadcaster {
    queues: Vec<OutboundQueue>,
}

/// Whether a queue of `queues` belongs to `key`.
spec fn listed(queues: Seq<OutboundQueue>, key: u64) -> bool {
    exists|i: int| 0 <= i < queues.len() && #[trigger] queues[i].key == key
}

/// Where in `queues` the queue of `key` stands.
spec fn slot(queues: Seq<OutboundQueue>, key: u64) -> int {
    choose|i: int| 0 <= i < queues.len() && #[trigger] queues[i].key == key
}

/// No two queues of `queues` belong to one key.
spec fn one_each(queues: Seq<OutboundQueue>) -> bool {
    forall|i: int, j: int|
        0 <= i < j < queues.len() ==> #[trigger] queues[i].key != #[trigger] queues[j].key
}

/// The map that a list of queues stands for.
spec fn table(queues: Seq<OutboundQueue>) -> Map<u64, Seq<MessageModel>> {
    Map::new(|k: u64| listed(queues, k), |k: u64| models(queues[slot(queues, k)].pending@))
}

/// With one queue per key, a queue is found where it stands.
proof fn lemma_slot(queues: Seq<OutboundQueue>, i: int)
    requires
        one_each(queues),
        0 <= i < queues.len(),
    ensures
        listed(queues, queues[i].key),
        slot(queues, queues[i].key) == i,
        table(queues).contains_key(queues[i].key),
        table(queues)[queues[i].key] == models(queues[i].pending@),
{
    let key = queues[i].key;
    let found = slot(queues, key);
    assert(0 <= found < queues.len() && queues[found].key == key);
    if found < i {
        assert(queues[found].key != queues[i].key);
    } else if i < found {
        assert(queues[i].key != queues[found].key);
    }
}

/// Two lists with the same keys in the same places list the same targets at
/// the same slots.
proof fn lemma_same_keys(before: Seq<OutboundQueue>, after: Seq<OutboundQueue>)
    requires
        one_each(before),
        before.len() == after.len(),
        forall|i: int| 0 <= i < before.len() ==> #[trigger] after[i].key == before[i].key,
    ensures
        one_each(after),
        forall|k: u64| listed(after, k) <==> listed(before, k),
        forall|k: u64| listed(before, k) ==> slot(after, k) == slot(before, k),
        table(after).dom() =~= table(before).dom(),
{
    assert forall|i: int, j: int| 0 <= i < j < after.len() implies #[trigger] after[i].key
        != #[trigger] after[j].key by {
        assert(before[i].key != before[j].key);
    }
    assert forall|k: u64| listed(after, k) <==> listed(before, k) by {
        if listed(after, k) {
            let i = slot(after, k);
            assert(before[i].key == k);
        }
        if listed(before, k) {
            let i = slot(before, k);
            assert(after[i].key == k);
        }
    }
    assert forall|k: u64| listed(before, k) implies slot(after, k) == slot(before, k) by {
        let i = slot(before, k);
        assert(after[i].key == k);
        lemma_slot(after, i);
    }
}

/// The models of a run with one more message are the models of the run with
/// one more model.
proof fn lemma_models_push(run: Seq<Message>, message: Message)
    ensures
        models(run.push(message)) == models(run).push(message@),
{
    assert(models(run.push(message)) =~= models(run).push(message@));
}

impl View for Broadcaster {
    type V = Map<u64, Seq<MessageModel>>;

    closed spec fn view(&self) -> Map<u64, Seq<MessageModel>> {
        table(self.queues@)
    }
}

impl Broadcaster {
    /// The invariant: one queue per key.
    pub closed spec fn wf(&self) -> bool {
        one_each(self.queues@)
    }

    /// A table without targets.
    pub fn new() -> (table: Broadcaster)
        ensures
            table.wf(),
            table@ == Map::<u64, Seq<MessageModel>>::empty(),
    {
        let made = Broadcaster { queues: Vec::new() };
        proof {
            assert(made@ =~= Map::<u64, Seq<MessageModel>>::empty());
        }
        made
    }

    /// Where the queue of `key` stands, if it has one.
    fn find(&self, key: u64) -> (found: Option<usize>)
        requires
            self.wf(),
        ensures
            found is Some <==> self@.contains_key(key),
            found matches Some(i) ==> i < self.queues@.len() && self.queues@[i as int].key == key
                && slot(self.queues@, key) == i,
    {
        let mut i: usize = 0;
        while i < self.queues.len()
            invariant
                self.wf(),
                i <= self.queues@.len(),
                forall|j: int| 0 <= j < i ==> self.queues@[j].key != key,
            decreases self.queues@.len() - i,
        {
            if self.queues[i].key == key {
                proof {
                    lemma_slot(self.queues@, i as int);
                }
                return Some(i);
            }
            i += 1;
        }
        None
    }

    /// Whether `key` is a target.
    pub fn is_registered(&self, key: u64) -> (present: bool)
        requires
            self.wf(),
        ensures
            present <==> self@.contains_key(key),
    {
        self.find(key).is_some()
    }

    /// How many messages wait for `key`; none where it is no target.
    pub fn pending(&self, key: u64) -> (n: usize)
        requires
            self.wf(),
        ensures
            self@.contains_key(key) ==> n == self@[key].len(),
            !self@.contains_key(key) ==> n == 0,
    {
        match self.find(key) {
            Some(i) => {
                proof {
                    lemma_slot(self.queues@, i as int);
                }
                self.queues[i].pending.len()
            },
            None => 0,
        }
    }

    /// Makes `key` a target with an empty queue. A key that is a target
    /// already is refused and nothing changes.
    pub fn register(&mut self, key: u64) -> (added: bool)
        requires
            old(self).wf(),
        ensures
            final(self).wf(),
            added <==> !old(self)@.contains_key(key),
            added ==> final(self)@ == old(self)@.insert(key, Seq::<MessageModel>::empty()),
            !added ==> final(self)@ == old(self)@,
    {
        match self.find(key) {
            Some(_) => false,
            None => {
                let ghost before = self.queues@;
                self.queues.push(OutboundQueue { key, pending: Vec::new() });
                proof {
                    let after = self.queues@;
                    let last = after.len() - 1;
                    assert(one_each(after));
                    lemma_slot(after, last);
                    assert forall|k: u64| listed(after, k) <==> (k == key || listed(before, k)) by {
                        if listed(before, k) {
                            let i = slot(before, k);
                            assert(after[i].key == k);
                        }
                        if k == key {
                            assert(after[last].key == k);
                        }
                        if listed(after, k) && k != key {
                            let i = slot(after, k);
                            assert(before[i].key == k);
                        }
                    }
                    assert forall|k: u64| listed(before, k) implies table(after)[k] == table(
                        before,
                    )[k] by {
                        let i = slot(before, k);
                        lemma_slot(before, i);
                        lemma_slot(after, i);
                    }
                    assert(models(after[last].pending@) =~= Seq::<MessageModel>::empty());
                    assert(self@ =~= old(self)@.insert(key, Seq::<MessageModel>::empty()));
                }
                true
            },
        }
    }

    /// Puts `message` at the end of the queue of `key`. Where `key` is no
    /// target the message is dropped and nothing changes.
    pub fn send(&mut self, key: u64, message: Message) -> (queued: bool)
        requires
            old(self).wf(),
        ensures
            final(self).wf(),
            queued <==> old(self)@.contains_key(key),
            queued ==> final(self)@ == old(self)@.insert(key, old(self)@[key].push(message@)),
            !queued ==> final(self)@ == old(self)@,
    {
        match self.find(key) {
            Some(i) => {
                let ghost before = self.queues@;
                self.queues[i].pending.push(message);
                proof {
                    let after = self.queues@;
                    lemma_same_keys(before, after);
                    lemma_models_push(before[i as int].pending@, message);
                    assert forall|k: u64| listed(before, k) implies #[trigger] table(after)[k] == (if k
                        == key {
                        table(before)[key].push(message@)
                    } else {
                        table(before)[k]
                    }) by {
                        let j = slot(before, k);
                        lemma_slot(before, j);
                        lemma_slot(after, j);
                    }
                    assert(self@ =~= old(self)@.insert(key, old(self)@[key].push(message@)));
                }
                true
            },
            None => false,
        }
    }

    /// Puts a copy of `message` at the end of every queue but that of
    /// `exclude`.
    pub fn broadcast(&mut self, exclude: u64, message: &Message)
        requires
            old(self).wf(),
        ensures
            final(self).wf(),
            final(self)@ == delivered(old(self)@, exclude, message@),
    {
        let ghost before = self.queues@;
        let mut i: usize = 0;
        while i < self.queues.len()
            invariant
                one_each(before),
                i <= before.len(),
                self.queues@.len() == before.len(),
                forall|j: int| 0 <= j < before.len() ==> #[trigger] self.queues@[j].key == before[j].key,
                forall|j: int|
                    0 <= j < i ==> models(#[trigger] self.queues@[j].pending@) == (if before[j].key
                        == exclude {
                        models(before[j].pending@)
                    } else {
                        models(before[j].pending@).push(message@)
                    }),
                forall|j: int|
                    i <= j < before.len() ==> #[trigger] self.queues@[j].pending@
                        == before[j].pending@,
            decreases before.len() - i,
        {
            if self.queues[i].key != exclude {
                let copy = message.clone();
                proof {
                    lemma_models_push(self.queues@[i as int].pending@, copy);
                }
                self.queues[i].pending.push(copy);
            }
            i += 1;
        }
        proof {
            let after = self.queues@;
            lemma_same_keys(before, after);
            assert forall|k: u64| listed(before, k) implies #[trigger] table(after)[k] == (if k
                == exclude {
                table(before)[k]
            } else {
                table(before)[k].push(message@)
            }) by {
                let j = slot(before, k);
                lemma_slot(before, j);
                lemma_slot(after, j);
            }
            assert(self@ =~= delivered(old(self)@, exclude, message@));
        }
    }

    /// Takes the oldest message out of the queue of `key`. Where `key` is no
    /// target, or nothing waits for it, nothing changes.
    pub fn dequeue(&mut self, key: u64) -> (next: Option<Message>)
        requires
            old(self).wf(),
        ensures
            final(self).wf(),
            next is Some <==> old(self)@.contains_key(key) && old(self)@[key].len() > 0,
            next matches Some(message) ==> message@ == old(self)@[key][0] && final(self)@ == old(
                self,
            )@.insert(key, old(self)@[key].drop_first()),
            next is None ==> final(self)@ == old(self)@,
    {
        match self.find(key) {
            Some(i) => {
                let ghost before = self.queues@;
                proof {
                    lemma_slot(before, i as int);
                }
                if self.queues[i].pending.len() == 0 {
                    None
                } else {
                    let message = self.queues[i].pending.remove(0);
                    proof {
                        let after = self.queues@;
                        lemma_same_keys(before, after);
                        assert(models(after[i as int].pending@) =~= models(
                            before[i as int].pending@,
                        ).drop_first());
                        assert forall|k: u64| listed(before, k) implies #[trigger] table(after)[k] == (if k
                            == key {
                            table(before)[key].drop_first()
                        } else {
                            table(before)[k]
                        }) by {
                            let j = slot(before, k);
                            lemma_slot(before, j);
                            lemma_slot(after, j);
                        }
                        assert(self@ =~= old(self)@.insert(key, old(self)@[key].drop_first()));
                    }
                    Some(message)
                }
            },
            None => None,
        }
    }

    /// Strikes `key` from the targets and discards what waited for it.
    /// Where `key` is no target nothing changes.
    pub fn unregister(&mut self, key: u64) -> (struck: bool)
        requires
            old(self).wf(),
        ensures
            final(self).wf(),
            struck <==> old(self)@.contains_key(key),
            final(self)@ == old(self)@.remove(key),
    {
        match self.find(key) {
            Some(i) => {
                let ghost before = self.queues@;
                let _ = self.queues.remove(i);
                proof {
                    let after = self.queues@;
                    assert(one_each(after)) by {
                        assert forall|a: int, b: int| 0 <= a < b < after.len() implies #[trigger] after[a].key
                            != #[trigger] after[b].key by {
                            let a0 = if a < i { a } else { a + 1 };
                            let b0 = if b < i { b } else { b + 1 };
                            assert(before[a0].key != before[b0].key);
                        }
                    }
                    assert forall|k: u64| listed(after, k) <==> (k != key && listed(before, k)) by {
                        if listed(after, k) {
                            let j = slot(after, k);
                            let j0 = if j < i { j } else { j + 1 };
                            assert(before[j0].key == k);
                            if k == key {
                                lemma_slot(before, j0);
                            }
                        }
                        if k != key && listed(before, k) {
                            let j0 = slot(before, k);
                            let j = if j0 < i { j0 } else { j0 - 1 };
                            assert(after[j].key == k);
                        }
                    }
                    assert forall|k: u64| listed(after, k) implies #[trigger] table(after)[k] == table(
                        before,
                    )[k] by {
                        let j = slot(after, k);
                        let j0 = if j < i { j } else { j + 1 };
                        lemma_slot(after, j);
                        lemma_slot(before, j0);
                    }
                    assert(self@ =~= old(self)@.remove(key));
                }
                true
            },
            None => {
                proof {
                    assert(self@ =~= old(self)@.remove(key));
                }
                false
            },
        }
    }

    /// The keys of all targets, each once.
    pub fn targets(&self) -> (keys: Vec<u64>)
        requires
            self.wf(),
        ensures
            keys@.no_duplicates(),
            forall|k: u64| keys@.contains(k) <==> self@.contains_key(k),
    {
        let mut keys: Vec<u64> = Vec::new();
        let mut i: usize = 0;
        while i < self.queues.len()
            invariant
                self.wf(),
                i <= self.queues@.len(),
                keys@.len() == i,
                forall|j: int| 0 <= j < i ==> #[trigger] keys@[j] == self.queues@[j].key,
            decreases self.queues@.len() - i,
        {
            keys.push(self.queues[i].key);
            i += 1;
        }
        proof {
            let queues = self.queues@;
            assert forall|a: int, b: int| 0 <= a < keys@.len() && 0 <= b < keys@.len() && a
                != b implies keys@[a] != keys@[b] by {
                if a < b {
                    assert(queues[a].key != queues[b].key);
                } else {
                    assert(queues[b].key != queues[a].key);
                }
            }
            assert forall|k: u64| keys@.contains(k) <==> self@.contains_key(k) by {
                if keys@.contains(k) {
                    let j = choose|j: int| 0 <= j < keys@.len() && keys@[j] == k;
                    assert(queues[j].key == k);
                }
                if listed(queues, k) {
                    let j = slot(queues, k);
                    assert(keys@[j] == k);
                }
            }
        }
        keys
    }
}

} // verus!
