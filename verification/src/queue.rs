//! The delivery queue of a node: messages keyed by `(sequence, message id)`
//! and kept in ascending key order, so that the message with the smallest
//! key is always at the front.
//!
//! The queue is a vector kept sorted rather than a `BTreeMap`: delivery takes
//! messages from the front (the smallest key first), and vstd specifies
//! neither `BTreeMap::first_key_value` nor `BTreeMap::pop_first`. The sorted
//! order, with no key twice, is the queue's invariant ([`sorted`]), and
//! [`as_map`] is its view as a map.
use vstd::prelude::*;

verus! {

/// The model of one queued message.
pub struct QueueItem {
    pub seq: u64,
    pub id: u64,
    pub deliverable: bool,
    pub msg: Seq<u8>,
}

impl QueueItem {
    /// The key under which the message is queued.
    pub open spec fn key(self) -> (u64, u64) {
        (self.seq, self.id)
    }

    /// What the queue holds under the item's key.
    pub open spec fn value(self) -> (bool, Seq<u8>) {
        (self.deliverable, self.msg)
    }
}

/// Keys are ordered by sequence number first, then by message id.
pub open spec fn key_lt(a: (u64, u64), b: (u64, u64)) -> bool {
    a.0 < b.0 || (a.0 == b.0 && a.1 < b.1)
}

/// The items are in strictly ascending key order (so no key occurs twice).
pub open spec fn sorted(s: Seq<QueueItem>) -> bool {
    forall|i: int, j: int|
        #![trigger s[i], s[j]]
        0 <= i < j < s.len() ==> key_lt(s[i].key(), s[j].key())
}

/// Some item of `s` has the key `k`.
pub open spec fn has_key(s: Seq<QueueItem>, k: (u64, u64)) -> bool {
    exists|i: int| 0 <= i < s.len() && #[trigger] s[i].key() == k
}

/// The position of the item with key `k` in `s`.
pub open spec fn index_of(s: Seq<QueueItem>, k: (u64, u64)) -> int {
    choose|i: int| 0 <= i < s.len() && #[trigger] s[i].key() == k
}

/// The queue as a map from key to `(deliverable, message)`.
pub open spec fn as_map(s: Seq<QueueItem>) -> Map<(u64, u64), (bool, Seq<u8>)> {
    Map::new(|k: (u64, u64)| has_key(s, k), |k: (u64, u64)| s[index_of(s, k)].value())
}

/// `n` is the length of the longest prefix of `s` whose items are all
/// deliverable.
pub open spec fn deliverable_prefix(s: Seq<QueueItem>, n: int) -> bool {
    &&& 0 <= n <= s.len()
    &&& forall|i: int| 0 <= i < n ==> #[trigger] s[i].deliverable
    &&& n < s.len() ==> !s[n].deliverable
}

/// In a sorted queue the item with a given key sits at a single position.
pub proof fn lemma_index_of(s: Seq<QueueItem>, i: int)
    requires
        sorted(s),
        0 <= i < s.len(),
    ensures
        has_key(s, s[i].key()),
        index_of(s, s[i].key()) == i,
        as_map(s).contains_key(s[i].key()),
        as_map(s)[s[i].key()] == s[i].value(),
{
    let k = s[i].key();
    assert(s[i].key() == k);
    let j = index_of(s, k);
    if j < i {
        assert(key_lt(s[j].key(), s[i].key()));
    } else if i < j {
        assert(key_lt(s[i].key(), s[j].key()));
    }
}

/// Removing an item keeps a queue sorted and removes its key from the map.
proof fn lemma_remove_at(s: Seq<QueueItem>, p: int)
    requires
        sorted(s),
        0 <= p < s.len(),
    ensures
        sorted(s.remove(p)),
        as_map(s.remove(p)) == as_map(s).remove(s[p].key()),
{
    let t = s.remove(p);
    let k = s[p].key();
    assert forall|i: int, j: int| 0 <= i < j < t.len() implies key_lt(
        #[trigger] t[i].key(),
        #[trigger] t[j].key(),
    ) by {
        let si = if i < p { i } else { i + 1 };
        let sj = if j < p { j } else { j + 1 };
        assert(t[i] == s[si] && t[j] == s[sj]);
        assert(key_lt(s[si].key(), s[sj].key()));
    }
    assert forall|k2: (u64, u64)| #[trigger] has_key(t, k2) == (has_key(s, k2) && k2 != k) by {
        if has_key(t, k2) {
            let j = index_of(t, k2);
            let sj = if j < p { j } else { j + 1 };
            assert(t[j] == s[sj]);
            lemma_index_of(s, sj);
            lemma_index_of(s, p);
        }
        if has_key(s, k2) && k2 != k {
            let j = index_of(s, k2);
            assert(j != p);
            let tj = if j < p { j } else { j - 1 };
            assert(t[tj] == s[j]);
        }
    }
    assert forall|k2: (u64, u64)| has_key(t, k2) implies #[trigger] t[index_of(t, k2)].value()
        == s[index_of(s, k2)].value() by {
        let j = index_of(t, k2);
        let sj = if j < p { j } else { j + 1 };
        assert(t[j] == s[sj]);
        lemma_index_of(s, sj);
    }
    assert(as_map(t) =~= as_map(s).remove(k));
}

/// Inserting an item at the position where its key belongs keeps a queue
/// sorted and inserts the key into the map.
pub proof fn lemma_insert_at(s: Seq<QueueItem>, p: int, x: QueueItem)
    requires
        sorted(s),
        0 <= p <= s.len(),
        forall|j: int| 0 <= j < p ==> key_lt(#[trigger] s[j].key(), x.key()),
        forall|j: int| p <= j < s.len() ==> key_lt(x.key(), #[trigger] s[j].key()),
    ensures
        sorted(s.insert(p, x)),
        as_map(s.insert(p, x)) == as_map(s).insert(x.key(), x.value()),
{
    let t = s.insert(p, x);
    let k = x.key();
    assert forall|i: int, j: int| 0 <= i < j < t.len() implies key_lt(
        #[trigger] t[i].key(),
        #[trigger] t[j].key(),
    ) by {
        if i < p && j < p {
            assert(key_lt(s[i].key(), s[j].key()));
        } else if i < p && j == p {
        } else if i < p {
            assert(t[j] == s[j - 1]);
            assert(key_lt(s[i].key(), s[j - 1].key()));
        } else if i == p {
            assert(t[j] == s[j - 1]);
        } else {
            assert(t[i] == s[i - 1] && t[j] == s[j - 1]);
            assert(key_lt(s[i - 1].key(), s[j - 1].key()));
        }
    }
    assert(t[p] == x);
    lemma_index_of(t, p);
    assert forall|k2: (u64, u64)| #[trigger] has_key(t, k2) == (has_key(s, k2) || k2 == k) by {
        if has_key(t, k2) {
            let j = index_of(t, k2);
            if j < p {
                assert(t[j] == s[j]);
            } else if j > p {
                assert(t[j] == s[j - 1]);
            }
        }
        if has_key(s, k2) {
            let j = index_of(s, k2);
            let tj = if j < p { j } else { j + 1 };
            assert(t[tj] == s[j]);
        }
    }
    assert forall|k2: (u64, u64)| has_key(t, k2) && k2 != k implies #[trigger] t[index_of(
        t,
        k2,
    )].value() == s[index_of(s, k2)].value() by {
        let j = index_of(t, k2);
        lemma_index_of(t, j);
        assert(j != p);
        let sj = if j < p { j } else { j - 1 };
        assert(t[j] == s[sj]);
        lemma_index_of(s, sj);
    }
    assert(as_map(t) =~= as_map(s).insert(k, x.value()));
}

/// Replacing an item by one with the same key keeps a queue sorted and
/// replaces the key's value in the map.
proof fn lemma_update_at(s: Seq<QueueItem>, p: int, x: QueueItem)
    requires
        sorted(s),
        0 <= p < s.len(),
        s[p].key() == x.key(),
    ensures
        sorted(s.update(p, x)),
        as_map(s.update(p, x)) == as_map(s).insert(x.key(), x.value()),
{
    let t = s.update(p, x);
    let k = x.key();
    assert forall|i: int, j: int| 0 <= i < j < t.len() implies key_lt(
        #[trigger] t[i].key(),
        #[trigger] t[j].key(),
    ) by {
        assert(key_lt(s[i].key(), s[j].key()));
    }
    lemma_index_of(t, p);
    lemma_index_of(s, p);
    assert forall|k2: (u64, u64)| #[trigger] has_key(t, k2) == has_key(s, k2) by {
        if has_key(t, k2) {
            let j = index_of(t, k2);
            if j != p {
                assert(t[j] == s[j]);
            }
        }
        if has_key(s, k2) {
            let j = index_of(s, k2);
            if j != p {
                assert(t[j] == s[j]);
            }
        }
    }
    assert forall|k2: (u64, u64)| has_key(t, k2) && k2 != k implies #[trigger] t[index_of(
        t,
        k2,
    )].value() == s[index_of(s, k2)].value() by {
        let j = index_of(t, k2);
        lemma_index_of(t, j);
        assert(j != p);
        assert(t[j] == s[j]);
        lemma_index_of(s, j);
    }
    assert(as_map(t) =~= as_map(s).insert(k, x.value()));
}

/// A sorted queue is determined by what it holds: two sorted queues with
/// the same keys and values are the same sequence.
pub proof fn lemma_sorted_determined_by_map(s: Seq<QueueItem>, t: Seq<QueueItem>)
    requires
        sorted(s),
        sorted(t),
        as_map(s) == as_map(t),
    ensures
        s == t,
    decreases s.len(),
{
    if s.len() == 0 {
        if t.len() > 0 {
            lemma_index_of(t, 0);
            assert(as_map(s).contains_key(t[0].key()));
        }
        assert(s =~= t);
    } else {
        lemma_index_of(s, 0);
        assert(as_map(t).contains_key(s[0].key()));
        assert(t.len() > 0);
        lemma_index_of(t, 0);
        let j = index_of(t, s[0].key());
        let i = index_of(s, t[0].key());
        lemma_index_of(t, j);
        lemma_index_of(s, i);
        if j > 0 {
            assert(key_lt(t[0].key(), t[j].key()));
            if i > 0 {
                assert(key_lt(s[0].key(), s[i].key()));
            }
        }
        assert(j == 0);
        assert(s[0] == t[0]);
        lemma_remove_at(s, 0);
        lemma_remove_at(t, 0);
        lemma_sorted_determined_by_map(s.remove(0), t.remove(0));
        assert forall|k: int| 0 <= k < s.len() implies s[k] == t[k] by {
            if k > 0 {
                assert(s[k] == s.remove(0)[k - 1]);
                assert(t[k] == t.remove(0)[k - 1]);
            }
        }
        assert(s =~= t);
    }
}

/// A queued message: whether the agreed order allows it to be delivered,
/// and its bytes.
pub struct QueueEntry {
    pub is_deliverable: bool,
    pub msg: Vec<u8>,
}

impl QueueEntry {
    /// What the queue holds for the entry.
    pub open spec fn value(&self) -> (bool, Seq<u8>) {
        (self.is_deliverable, self.msg@)
    }
}

struct Slot {
    seq: u64,
    id: u64,
    entry: QueueEntry,
}

impl Slot {
    spec fn item(self) -> QueueItem {
        QueueItem {
            seq: self.seq,
            id: self.id,
            deliverable: self.entry.is_deliverable,
            msg: self.entry.msg@,
        }
    }
}

/// Messages in ascending `(sequence, message id)` order, each key at most
/// once.
pub struct DeliveryQueue {
    slots: Vec<Slot>,
}

impl View for DeliveryQueue {
    type V = Seq<QueueItem>;

    closed spec fn view(&self) -> Seq<QueueItem> {
        self.slots@.map_values(|slot: Slot| slot.item())
    }
}

fn key_less(a_seq: u64, a_id: u64, b_seq: u64, b_id: u64) -> (r: bool)
    ensures
        r == key_lt((a_seq, a_id), (b_seq, b_id)),
{
    a_seq < b_seq || (a_seq == b_seq && a_id < b_id)
}

impl DeliveryQueue {
    /// The queue's invariant: ascending key order.
    pub open spec fn wf(&self) -> bool {
        sorted(self@)
    }

    /// An empty queue.
    pub fn new() -> (q: Self)
        ensures
            q@ == Seq::<QueueItem>::empty(),
            q.wf(),
    {
        DeliveryQueue { slots: Vec::new() }
    }

    /// The number of queued messages.
    pub fn len(&self) -> (n: usize)
        ensures
            n == self@.len(),
    {
        self.slots.len()
    }

    /// The position of the first item whose key is not below `(seq, id)`.
    fn lower_bound(&self, seq: u64, id: u64) -> (p: usize)
        requires
            self.wf(),
        ensures
            p <= self@.len(),
            forall|j: int| 0 <= j < p ==> key_lt(#[trigger] self@[j].key(), (seq, id)),
            forall|j: int| p <= j < self@.len() ==> !key_lt(#[trigger] self@[j].key(), (seq, id)),
    {
        let n = self.slots.len();
        let mut i: usize = 0;
        while i < n && key_less(self.slots[i].seq, self.slots[i].id, seq, id)
            invariant
                n == self@.len(),
                n == self.slots@.len(),
                i <= n,
                self.wf(),
                forall|j: int| 0 <= j < i ==> key_lt(#[trigger] self@[j].key(), (seq, id)),
            decreases n - i,
        {
            assert(self@[i as int] == self.slots@[i as int].item());
            i = i + 1;
        }
        if i < n {
            assert(self@[i as int] == self.slots@[i as int].item());
            assert forall|j: int| i <= j < self@.len() implies !key_lt(
                #[trigger] self@[j].key(),
                (seq, id),
            ) by {
                if i < j {
                    assert(key_lt(self@[i as int].key(), self@[j].key()));
                }
            }
        }
        i
    }

    /// Puts `entry` under the key `(seq, id)`, replacing what was there.
    pub fn insert(&mut self, seq: u64, id: u64, entry: QueueEntry)
        requires
            old(self).wf(),
        ensures
            final(self).wf(),
            as_map(final(self)@) == as_map(old(self)@).insert((seq, id), entry.value()),
    {
        let ghost s = self@;
        let ghost x = QueueItem { seq, id, deliverable: entry.is_deliverable, msg: entry.msg@ };
        let p = self.lower_bound(seq, id);
        let slot = Slot { seq, id, entry };
        assert(slot.item() == x);
        if p < self.slots.len() && self.slots[p].seq == seq && self.slots[p].id == id {
            assert(s[p as int] == self.slots@[p as int].item());
            self.slots.set(p, slot);
            proof {
                lemma_update_at(s, p as int, x);
                assert(self@ =~= s.update(p as int, x));
            }
        } else {
            proof {
                assert forall|j: int| p <= j < s.len() implies key_lt(x.key(), #[trigger] s[j].key()) by {
                    assert(!key_lt(s[j].key(), (seq, id)));
                    if j == p {
                        assert(s[p as int] == self.slots@[p as int].item());
                    } else {
                        assert(key_lt(s[p as int].key(), s[j].key()));
                        assert(s[p as int] == self.slots@[p as int].item());
                    }
                }
            }
            self.slots.insert(p, slot);
            proof {
                lemma_insert_at(s, p as int, x);
                assert(self@ =~= s.insert(p as int, x));
            }
        }
    }

    /// Takes out the entry under the key `(seq, id)`, if there is one.
    pub fn remove(&mut self, seq: u64, id: u64) -> (r: Option<QueueEntry>)
        requires
            old(self).wf(),
        ensures
            final(self).wf(),
            as_map(final(self)@) == as_map(old(self)@).remove((seq, id)),
            match r {
                Some(e) => as_map(old(self)@).contains_key((seq, id)) && e.value() == as_map(
                    old(self)@,
                )[(seq, id)],
                None => !as_map(old(self)@).contains_key((seq, id)),
            },
    {
        let ghost s = self@;
        let p = self.lower_bound(seq, id);
        if p < self.slots.len() && self.slots[p].seq == seq && self.slots[p].id == id {
            assert(s[p as int] == self.slots@[p as int].item());
            let slot = self.slots.remove(p);
            proof {
                lemma_index_of(s, p as int);
                lemma_remove_at(s, p as int);
                assert(self@ =~= s.remove(p as int));
            }
            Some(slot.entry)
        } else {
            proof {
                if has_key(s, (seq, id)) {
                    let j = index_of(s, (seq, id));
                    if j < p {
                        assert(key_lt(s[j].key(), (seq, id)));
                    } else if j > p {
                        assert(key_lt(s[p as int].key(), s[j].key()));
                        assert(s[p as int] == self.slots@[p as int].item());
                    } else {
                        assert(s[p as int] == self.slots@[p as int].item());
                    }
                }
                assert(as_map(s).remove((seq, id)) =~= as_map(s));
            }
            None
        }
    }

    /// Takes out, front first, the messages before the first one that is not
    /// deliverable, and returns their bytes in queue order.
    pub fn take_deliverable(&mut self) -> (ready: Vec<Vec<u8>>)
        requires
            old(self).wf(),
        ensures
            final(self).wf(),
            deliverable_prefix(old(self)@, ready@.len() as int),
            forall|i: int| 0 <= i < ready@.len() ==> #[trigger] ready@[i]@ == old(self)@[i].msg,
            final(self)@ == old(self)@.skip(ready@.len() as int),
    {
        let ghost s = self@;
        let mut ready: Vec<Vec<u8>> = Vec::new();
        while self.slots.len() > 0 && self.slots[0].entry.is_deliverable
            invariant
                ready@.len() <= s.len(),
                self@ == s.skip(ready@.len() as int),
                sorted(s),
                forall|i: int| 0 <= i < ready@.len() ==> #[trigger] s[i].deliverable,
                forall|i: int| 0 <= i < ready@.len() ==> #[trigger] ready@[i]@ == s[i].msg,
            decreases self.slots@.len(),
        {
            let ghost k = ready@.len() as int;
            let ghost before = self@;
            assert(before.len() == self.slots@.len());
            assert(before[0] == self.slots@[0].item());
            assert(s[k] == before[0]);
            let slot = self.slots.remove(0);
            ready.push(slot.entry.msg);
            assert(self@ =~= before.subrange(1, before.len() as int));
            assert(self@ =~= s.skip(k + 1));
        }
        proof {
            let n = ready@.len() as int;
            assert(self@.len() == self.slots@.len());
            if n < s.len() {
                assert(self@[0] == self.slots@[0].item());
                assert(s[n] == self@[0]);
            }
            assert forall|i: int, j: int| 0 <= i < j < self@.len() implies key_lt(
                #[trigger] self@[i].key(),
                #[trigger] self@[j].key(),
            ) by {
                assert(self@[i] == s[i + n] && self@[j] == s[j + n]);
            }
        }
        ready
    }
}

} // verus!
