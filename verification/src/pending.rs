//! Deliveries that await acknowledgement, one queue for each subscription,
//! in order of arrival.

use vstd::prelude::*;
use vstd::string::*;
use crate::frame::{Frame, FrameView};
use crate::text::str_eq;

verus! {

/// One delivery: the message id and the frame as it arrived.
pub type Delivery = (Seq<char>, FrameView);

/// The deliveries of one subscription.
pub struct PendingQueue {
    pub subscription: String,
    pub entries: Vec<(String, Frame)>,
}

/// Views executable deliveries.
pub open spec fn deliveries(e: Seq<(String, Frame)>) -> Seq<Delivery> {
    Seq::new(e.len(), |i: int| (e[i].0@, e[i].1@))
}

/// The position of the first delivery with message id `m`, or the length
/// of `q` when there is none.
pub open spec fn position(q: Seq<Delivery>, m: Seq<char>) -> int
    decreases q.len(),
{
    if q.len() == 0 {
        0
    } else if q[0].0 == m {
        0
    } else {
        1 + position(q.skip(1), m)
    }
}

/// What is left of a queue after an acknowledgement of `m`: a cumulative
/// one drops every delivery up to and including the first with that id, an
/// individual one drops that delivery alone. An id that is not in the queue
/// changes nothing.
pub open spec fn acknowledged(q: Seq<Delivery>, m: Seq<char>, cumulative: bool) -> Seq<Delivery> {
    let p = position(q, m);
    if p >= q.len() {
        q
    } else if cumulative {
        q.skip(p + 1)
    } else {
        q.remove(p)
    }
}

/// `position` is the least index that holds the id.
pub proof fn lemma_position(q: Seq<Delivery>, m: Seq<char>)
    ensures
        0 <= position(q, m) <= q.len(),
        position(q, m) < q.len() ==> q[position(q, m)].0 == m,
        forall|i: int| 0 <= i < position(q, m) ==> q[i].0 != m,
    decreases q.len(),
{
    if q.len() > 0 && q[0].0 != m {
        lemma_position(q.skip(1), m);
        assert forall|i: int| 0 <= i < position(q, m) implies q[i].0 != m by {
            if i > 0 {
                assert(q.skip(1)[i - 1] == q[i]);
            }
        }
    }
}

/// After a cumulative acknowledgement of a message that is pending, the
/// queue is exactly what arrived after that message: every delivery at or
/// before it is gone, and the later ones stay in order.
pub proof fn lemma_cumulative_ack(q: Seq<Delivery>, m: Seq<char>)
    requires
        position(q, m) < q.len(),
    ensures
        acknowledged(q, m, true).len() == q.len() - position(q, m) - 1,
        forall|j: int|
            0 <= j < acknowledged(q, m, true).len() ==> acknowledged(q, m, true)[j] == q[position(
                q,
                m,
            ) + 1 + j],
{
    lemma_position(q, m);
}

/// After an individual acknowledgement of a message that is pending, every
/// other delivery is still there, in order: those before it keep their
/// place and those after it move up by one.
pub proof fn lemma_individual_ack(q: Seq<Delivery>, m: Seq<char>)
    requires
        position(q, m) < q.len(),
    ensures
        acknowledged(q, m, false).len() == q.len() - 1,
        forall|j: int| 0 <= j < position(q, m) ==> acknowledged(q, m, false)[j] == q[j],
        forall|j: int|
            position(q, m) <= j < q.len() - 1 ==> acknowledged(q, m, false)[j] == q[j + 1],
{
    lemma_position(q, m);
}

/// The queues of all subscriptions.
pub struct PendingMap {
    queues: Vec<PendingQueue>,
}

/// The index of the first queue of subscription `key`, or the length.
pub open spec fn queue_index(qs: Seq<PendingQueue>, key: Seq<char>) -> int
    decreases qs.len(),
{
    if qs.len() == 0 {
        0
    } else if qs[0].subscription@ == key {
        0
    } else {
        1 + queue_index(qs.skip(1), key)
    }
}

proof fn lemma_queue_index(qs: Seq<PendingQueue>, key: Seq<char>)
    ensures
        0 <= queue_index(qs, key) <= qs.len(),
        queue_index(qs, key) < qs.len() ==> qs[queue_index(qs, key)].subscription@ == key,
        forall|i: int| 0 <= i < queue_index(qs, key) ==> qs[i].subscription@ != key,
    decreases qs.len(),
{
    if qs.len() > 0 && qs[0].subscription@ != key {
        lemma_queue_index(qs.skip(1), key);
        assert forall|i: int| 0 <= i < queue_index(qs, key) implies qs[i].subscription@
            != key by {
            if i > 0 {
                assert(qs.skip(1)[i - 1] == qs[i]);
            }
        }
    }
}

proof fn lemma_queue_index_is(qs: Seq<PendingQueue>, key: Seq<char>, at: int)
    requires
        0 <= at <= qs.len(),
        at < qs.len() ==> qs[at].subscription@ == key,
        forall|i: int| 0 <= i < at ==> qs[i].subscription@ != key,
    ensures
        queue_index(qs, key) == at,
    decreases qs.len(),
{
    if at > 0 {
        assert(qs[0].subscription@ != key);
        assert forall|i: int| 0 <= i < at - 1 implies qs.skip(1)[i].subscription@ != key by {
            assert(qs.skip(1)[i] == qs[i + 1]);
        }
        lemma_queue_index_is(qs.skip(1), key, at - 1);
    }
}

impl PendingMap {
    /// No subscription has two queues, and no queue is empty.
    pub closed spec fn wf(&self) -> bool {
        &&& forall|i: int, j: int|
            0 <= i < j < self.queues@.len() ==> self.queues@[i].subscription@
                != self.queues@[j].subscription@
        &&& forall|i: int| 0 <= i < self.queues@.len() ==> self.queues@[i].entries@.len() > 0
    }

    /// The pending deliveries of subscription `key`, oldest first.
    pub closed spec fn get(&self, key: Seq<char>) -> Seq<Delivery> {
        let i = queue_index(self.queues@, key);
        if i < self.queues@.len() {
            deliveries(self.queues@[i].entries@)
        } else {
            Seq::empty()
        }
    }

    /// An empty map.
    pub fn new() -> (r: PendingMap)
        ensures
            r.wf(),
            forall|k: Seq<char>| r.get(k) == Seq::<Delivery>::empty(),
    {
        PendingMap { queues: Vec::new() }
    }

    /// Forgets every delivery.
    pub fn clear(&mut self)
        ensures
            final(self).wf(),
            forall|k: Seq<char>| final(self).get(k) == Seq::<Delivery>::empty(),
    {
        self.queues = Vec::new();
    }

    fn find(&self, key: &str) -> (i: usize)
        ensures
            i == queue_index(self.queues@, key@),
            i <= self.queues@.len(),
    {
        let mut i: usize = 0;
        while i < self.queues.len() && !str_eq(self.queues[i].subscription.as_str(), key)
            invariant
                0 <= i <= self.queues@.len(),
                forall|j: int| 0 <= j < i ==> self.queues@[j].subscription@ != key@,
            decreases self.queues@.len() - i,
        {
            i = i + 1;
        }
        proof {
            lemma_queue_index_is(self.queues@, key@, i as int);
        }
        i
    }

    /// Appends a delivery to the queue of subscription `key`.
    #[verifier::rlimit(40)]
    pub fn push(&mut self, key: &str, message_id: String, frame: Frame)
        requires
            old(self).wf(),
        ensures
            final(self).wf(),
            final(self).get(key@) == old(self).get(key@).push((message_id@, frame@)),
            forall|k: Seq<char>| k != key@ ==> final(self).get(k) == old(self).get(k),
    {
        let i = self.find(key);
        let ghost before = self.queues@;
        proof {
            lemma_queue_index(before, key@);
        }
        if i < self.queues.len() {
            let ghost old_entries = self.queues@[i as int].entries@;
            self.queues[i].entries.push((message_id, frame));
            proof {
                let after = self.queues@;
                assert(after.len() == before.len());
                assert(forall|j: int|
                    0 <= j < after.len() ==> after[j].subscription@ == before[j].subscription@);
                assert(forall|j: int| 0 <= j < after.len() && j != i ==> after[j] == before[j]);
                lemma_queue_index_is(after, key@, i as int);
                assert(deliveries(after[i as int].entries@) =~= deliveries(old_entries).push(
                    (message_id@, frame@),
                ));
                assert forall|k: Seq<char>| k != key@ implies self.get(k) == old(self).get(
                    k,
                ) by {
                    lemma_queue_index(before, k);
                    lemma_queue_index_is(after, k, queue_index(before, k));
                }
            }
        } else {
            let mut entries: Vec<(String, Frame)> = Vec::new();
            entries.push((message_id, frame));
            let ghost one = entries@;
            self.queues.push(PendingQueue { subscription: key.to_owned(), entries });
            proof {
                let after = self.queues@;
                assert(forall|j: int| 0 <= j < before.len() ==> after[j] == before[j]);
                lemma_queue_index_is(after, key@, i as int);
                assert(deliveries(one) =~= Seq::<Delivery>::empty().push((message_id@, frame@)));
                assert forall|k: Seq<char>| k != key@ implies self.get(k) == old(self).get(
                    k,
                ) by {
                    lemma_queue_index(before, k);
                    let b = queue_index(before, k);
                    if b < before.len() {
                        lemma_queue_index_is(after, k, b);
                    } else {
                        lemma_queue_index_is(after, k, after.len() as int);
                    }
                }
            }
        }
    }

    /// Takes an acknowledgement of message `message_id` for subscription
    /// `key`, cumulative or individual, and reports whether a delivery left.
    #[verifier::rlimit(40)]
    pub fn acknowledge(&mut self, key: &str, message_id: &str, cumulative: bool) -> (removed: bool)
        requires
            old(self).wf(),
        ensures
            final(self).wf(),
            final(self).get(key@) == acknowledged(old(self).get(key@), message_id@, cumulative),
            forall|k: Seq<char>| k != key@ ==> final(self).get(k) == old(self).get(k),
            removed == (position(old(self).get(key@), message_id@) < old(self).get(key@).len()),
    {
        let i = self.find(key);
        let ghost before = self.queues@;
        proof {
            lemma_queue_index(before, key@);
        }
        if i >= self.queues.len() {
            return false;
        }
        let ghost q = deliveries(before[i as int].entries@);
        let n = self.queues[i].entries.len();
        let mut p: usize = 0;
        assert(q.skip(0) =~= q);
        while p < n && !str_eq(self.queues[i].entries[p].0.as_str(), message_id)
            invariant
                0 <= p <= n,
                i < self.queues@.len(),
                self.queues@ == before,
                n == before[i as int].entries@.len(),
                q == deliveries(before[i as int].entries@),
                position(q, message_id@) == p + position(q.skip(p as int), message_id@),
            decreases n - p,
        {
            assert(q.skip(p as int)[0] == q[p as int]);
            assert(q.skip(p as int).skip(1) =~= q.skip(p + 1));
            p = p + 1;
        }
        proof {
            if p < n {
                assert(q.skip(p as int)[0] == q[p as int]);
            }
        }
        if p >= n {
            return false;
        }
        let mut rest: Vec<(String, Frame)> = Vec::new();
        let mut taken: Vec<(String, Frame)> = Vec::new();
        core::mem::swap(&mut taken, &mut self.queues[i].entries);
        let ghost all = taken@;
        assert(all == before[i as int].entries@);
        // Walk the queue from the back so that each delivery is moved once.
        let mut k: usize = n;
        while k > 0
            invariant
                0 <= k <= n,
                p < n,
                taken@.len() == k,
                forall|j: int| 0 <= j < k ==> taken@[j] == all[j],
                all.len() == n,
                rest@.len() == (if cumulative {
                    if k > p {
                        n - k
                    } else {
                        n - p - 1
                    }
                } else {
                    if k > p {
                        n - k
                    } else {
                        n - k - 1
                    }
                }),
                forall|j: int|
                    0 <= j < rest@.len() ==> rest@[j] == (if cumulative || n - 1 - j > p {
                        all[n - 1 - j]
                    } else {
                        all[n - 2 - j]
                    }),
            decreases k,
        {
            k = k - 1;
            let e = taken.pop().unwrap();
            if k > p || (!cumulative && k < p) {
                rest.push(e);
            }
        }
        let mut kept: Vec<(String, Frame)> = Vec::new();
        let m = rest.len();
        let ghost back = rest@;
        let mut t: usize = m;
        while t > 0
            invariant
                0 <= t <= m,
                back.len() == m,
                rest@.len() == t,
                forall|j: int| 0 <= j < t ==> rest@[j] == back[j],
                kept@.len() == m - t,
                forall|j: int| 0 <= j < kept@.len() ==> kept@[j] == back[m - 1 - j],
            decreases t,
        {
            t = t - 1;
            let e = rest.pop().unwrap();
            kept.push(e);
        }
        proof {
            assert(deliveries(kept@) =~= acknowledged(q, message_id@, cumulative));
        }
        if kept.len() == 0 {
            self.queues.remove(i);
            proof {
                let after = self.queues@;
                assert(after =~= before.remove(i as int));
                assert forall|x: int| 0 <= x < after.len() implies after[x].subscription@
                    != key@ by {
                    if x < i {
                        assert(after[x] == before[x]);
                    } else {
                        assert(after[x] == before[x + 1]);
                    }
                }
                lemma_queue_index_is(after, key@, after.len() as int);
                assert(acknowledged(q, message_id@, cumulative) =~= Seq::<Delivery>::empty());
                assert forall|k2: Seq<char>| k2 != key@ implies self.get(k2) == old(self).get(
                    k2,
                ) by {
                    lemma_queue_index(before, k2);
                    let b = queue_index(before, k2);
                    let a = if b > i {
                        b - 1
                    } else {
                        b
                    };
                    assert forall|x: int| 0 <= x < a implies after[x].subscription@ != k2 by {
                        if x < i {
                            assert(after[x] == before[x]);
                        } else {
                            assert(after[x] == before[x + 1]);
                        }
                    }
                    if b < before.len() {
                        assert(b != i);
                        assert(after[a] == before[b]);
                    }
                    lemma_queue_index_is(after, k2, a);
                }
                assert(self.wf()) by {
                    assert forall|x: int, y: int| 0 <= x < y < after.len() implies after[x].subscription@
                        != after[y].subscription@ by {
                        let bx = if x < i {
                            x
                        } else {
                            x + 1
                        };
                        let by_ = if y < i {
                            y
                        } else {
                            y + 1
                        };
                        assert(after[x] == before[bx]);
                        assert(after[y] == before[by_]);
                    }
                    assert forall|x: int| 0 <= x < after.len() implies after[x].entries@.len()
                        > 0 by {
                        let bx = if x < i {
                            x
                        } else {
                            x + 1
                        };
                        assert(after[x] == before[bx]);
                    }
                }
            }
        } else {
            self.queues[i].entries = kept;
            proof {
                let after = self.queues@;
                assert(after.len() == before.len());
                assert(forall|j: int|
                    0 <= j < after.len() ==> after[j].subscription@ == before[j].subscription@);
                assert(forall|j: int| 0 <= j < after.len() && j != i ==> after[j] == before[j]);
                lemma_queue_index_is(after, key@, i as int);
                assert forall|k2: Seq<char>| k2 != key@ implies self.get(k2) == old(self).get(
                    k2,
                ) by {
                    lemma_queue_index(before, k2);
                    lemma_queue_index_is(after, k2, queue_index(before, k2));
                }
            }
        }
        true
    }

    /// The message ids pending for subscription `key`, oldest first.
    pub fn message_ids(&self, key: &str) -> (r: Vec<String>)
        ensures
            r@.len() == self.get(key@).len(),
            forall|j: int| 0 <= j < r@.len() ==> r@[j]@ == self.get(key@)[j].0,
    {
        let i = self.find(key);
        let mut r: Vec<String> = Vec::new();
        if i < self.queues.len() {
            let mut j: usize = 0;
            while j < self.queues[i as usize].entries.len()
                invariant
                    i < self.queues@.len(),
                    0 <= j <= self.queues@[i as int].entries@.len(),
                    r@.len() == j,
                    forall|x: int|
                        0 <= x < j ==> r@[x]@ == self.queues@[i as int].entries@[x].0@,
                decreases self.queues@[i as int].entries@.len() - j,
            {
                r.push(self.queues[i].entries[j].0.clone());
                j = j + 1;
            }
        }
        r
    }
}

} // verus!
