//! The update bus: fan-out of every published counter value to all current
//! subscribers, each with its own bounded buffer.
//!
//! Slow-consumer policy (documented choice): when a publish finds a
//! subscriber's buffer already full, that subscriber is evicted — its
//! receiver leaves the live set and its stream is to be closed — rather
//! than blocking the publisher or corrupting the order for others.
//!
//! The ghost `hist` field records every value ever published. The central
//! invariant says that, for each live subscriber, the values it has already
//! received (`seen`) followed by the values still buffered for it (`buf`)
//! are exactly the values published since it registered (`joined`), in
//! publish order: deliveries are gap-free and order-preserving.

use vstd::prelude::*;

verus! {

/// One live receiver: its identity, its bounded buffer of undelivered
/// values, and the ghost record of when it joined and what it was handed.
pub struct Subscriber {
    pub id: u64,
    pub buf: Vec<i32>,
    /// Length of the publish history at registration time.
    pub joined: Ghost<nat>,
    /// Values already handed out through `recv`, in order.
    pub seen: Ghost<Seq<i32>>,
}

impl Subscriber {
    pub open spec fn wf(self, h: Seq<i32>, cap: nat) -> bool {
        &&& self.buf@.len() <= cap
        &&& self.joined@ <= h.len()
        &&& self.seen@ + self.buf@ == h.subrange(self.joined@ as int, h.len() as int)
    }
}

pub struct UpdateBus {
    /// Buffer bound per subscriber; at least 1.
    pub cap: usize,
    /// Next fresh subscriber id.
    pub next_id: u64,
    pub subs: Vec<Subscriber>,
    /// Every value ever published, in order.
    pub hist: Ghost<Seq<i32>>,
}

impl UpdateBus {
    pub open spec fn ids_distinct(self) -> bool {
        forall|i: int, j: int|
            0 <= i < j < self.subs@.len() ==> self.subs@[i].id != self.subs@[j].id
    }

    pub open spec fn wf(self) -> bool {
        &&& self.cap >= 1
        &&& self.ids_distinct()
        &&& forall|i: int|
            0 <= i < self.subs@.len() ==> (#[trigger] self.subs@[i]).wf(
                self.hist@,
                self.cap as nat,
            )
        &&& forall|i: int| 0 <= i < self.subs@.len() ==> (#[trigger] self.subs@[i]).id
            < self.next_id
    }

    /// Whether a subscriber with this id is in the live set.
    pub open spec fn has(self, id: u64) -> bool {
        exists|i: int| 0 <= i < self.subs@.len() && (#[trigger] self.subs@[i]).id == id
    }

    pub open spec fn idx_of(self, id: u64) -> int {
        choose|i: int| 0 <= i < self.subs@.len() && (#[trigger] self.subs@[i]).id == id
    }

    pub open spec fn sub_of(self, id: u64) -> Subscriber {
        self.subs@[self.idx_of(id)]
    }

    /// Values published but not yet received by this subscriber.
    pub open spec fn pending(self, id: u64) -> Seq<i32> {
        self.sub_of(id).buf@
    }

    /// Values already received by this subscriber, in delivery order.
    pub open spec fn seen_of(self, id: u64) -> Seq<i32> {
        self.sub_of(id).seen@
    }

    /// Length of the publish history when this subscriber registered.
    pub open spec fn joined_of(self, id: u64) -> nat {
        self.sub_of(id).joined@
    }

    pub open spec fn live_count(self) -> nat {
        self.subs@.len()
    }

    /// A fresh bus: empty live set, empty history.
    pub fn new(capacity: usize) -> (b: Self)
        requires
            capacity >= 1,
        ensures
            b.wf(),
            b.cap == capacity,
            b.next_id == 0,
            b.live_count() == 0,
            b.hist@ == Seq::<i32>::empty(),
            forall|x: u64| !b.has(x),
    {
        UpdateBus { cap: capacity, next_id: 0, subs: Vec::new(), hist: Ghost(Seq::empty()) }
    }
}

/// What [`UpdateBus::subscribe`] does, stated between a pre- and a
/// post-state: a fresh receiver joins the live set with an empty buffer,
/// registered at the current end of the history, and every other
/// subscriber is untouched.
pub open spec fn subscribe_step(pre: UpdateBus, post: UpdateBus, id: u64) -> bool {
    &&& post.cap == pre.cap
    &&& post.hist@ == pre.hist@
    &&& !pre.has(id)
    &&& post.has(id)
    &&& post.pending(id) == Seq::<i32>::empty()
    &&& post.seen_of(id) == Seq::<i32>::empty()
    &&& post.joined_of(id) == pre.hist@.len()
    &&& post.live_count() == pre.live_count() + 1
    &&& forall|x: u64| x != id ==> (#[trigger] post.has(x) <==> pre.has(x))
    &&& forall|x: u64|
        x != id && #[trigger] pre.has(x) ==> post.has(x) && post.sub_of(x) == pre.sub_of(x)
}

/// What [`UpdateBus::publish`] does, stated between a pre- and a
/// post-state: the value is appended to the history; every subscriber with
/// buffer room receives it at the end of its buffer, untouched otherwise;
/// every subscriber whose buffer was already full is evicted; nobody joins.
pub open spec fn publish_step(pre: UpdateBus, post: UpdateBus, v: i32) -> bool {
    &&& post.cap == pre.cap
    &&& post.next_id == pre.next_id
    &&& post.hist@ == pre.hist@.push(v)
    &&& forall|x: u64| #[trigger] post.has(x) ==> pre.has(x)
    &&& forall|x: u64|
        #[trigger] pre.has(x) && pre.pending(x).len() < pre.cap ==> {
            &&& post.has(x)
            &&& post.pending(x) == pre.pending(x).push(v)
            &&& post.seen_of(x) == pre.seen_of(x)
            &&& post.joined_of(x) == pre.joined_of(x)
        }
    &&& forall|x: u64| #[trigger] pre.has(x) && pre.pending(x).len() >= pre.cap ==> !post.has(x)
}

/// With distinct ids, the index chosen for a present id is the index it
/// stands at.
pub proof fn lemma_idx_of(b: UpdateBus, i: int)
    requires
        b.ids_distinct(),
        0 <= i < b.subs@.len(),
    ensures
        b.has(b.subs@[i].id),
        b.idx_of(b.subs@[i].id) == i,
        b.sub_of(b.subs@[i].id) == b.subs@[i],
{
    let id = b.subs@[i].id;
    assert(b.has(id));
    let j = b.idx_of(id);
    assert(0 <= j < b.subs@.len() && b.subs@[j].id == id);
    if j < i {
        assert(b.subs@[j].id != b.subs@[i].id);
    } else if i < j {
        assert(b.subs@[i].id != b.subs@[j].id);
    }
}

/// Effect of removing the slot at index `k` on the id-level view.
proof fn lemma_remove_effect(a: UpdateBus, b: UpdateBus, k: int)
    requires
        a.ids_distinct(),
        0 <= k < a.subs@.len(),
        b.subs@ == a.subs@.remove(k),
    ensures
        b.ids_distinct(),
        !b.has(a.subs@[k].id),
        forall|x: u64| #[trigger] b.has(x) ==> a.has(x) && x != a.subs@[k].id,
        forall|x: u64|
            x != a.subs@[k].id && #[trigger] a.has(x) ==> b.has(x) && b.sub_of(x) == a.sub_of(x),
        forall|j: int|
            0 <= j < b.subs@.len() ==> #[trigger] b.subs@[j] == if j < k {
                a.subs@[j]
            } else {
                a.subs@[j + 1]
            },
{
    let rid = a.subs@[k].id;
    assert forall|j: int| 0 <= j < b.subs@.len() implies #[trigger] b.subs@[j] == if j < k {
        a.subs@[j]
    } else {
        a.subs@[j + 1]
    } by {
        assert(b.subs@[j] == a.subs@.remove(k)[j]);
    }
    assert forall|i: int, j: int|
        0 <= i < j < b.subs@.len() implies b.subs@[i].id != b.subs@[j].id by {
        let ai = if i < k { i } else { i + 1 };
        let aj = if j < k { j } else { j + 1 };
        assert(a.subs@[ai].id != a.subs@[aj].id);
    }
    assert forall|j: int| 0 <= j < b.subs@.len() implies b.subs@[j].id != rid by {
        let aj = if j < k { j } else { j + 1 };
        assert(a.subs@[aj] == b.subs@[j]);
        if aj < k {
            assert(a.subs@[aj].id != a.subs@[k].id);
        } else {
            assert(a.subs@[k].id != a.subs@[aj].id);
        }
    }
    assert forall|x: u64| #[trigger] b.has(x) implies a.has(x) && x != rid by {
        let j = choose|j: int| 0 <= j < b.subs@.len() && b.subs@[j].id == x;
        let aj = if j < k { j } else { j + 1 };
        assert(a.subs@[aj].id == x);
        lemma_idx_of(a, aj);
    }
    assert forall|x: u64| x != rid && #[trigger] a.has(x) implies b.has(x) && b.sub_of(x)
        == a.sub_of(x) by {
        let ai = choose|i: int| 0 <= i < a.subs@.len() && a.subs@[i].id == x;
        lemma_idx_of(a, ai);
        assert(ai != k);
        let j = if ai < k { ai } else { ai - 1 };
        assert(b.subs@[j] == a.subs@[ai]);
        assert(b.has(x));
        lemma_idx_of(b, j);
    }
}

/// Effect of appending a slot with a fresh id on the id-level view.
proof fn lemma_push_effect(a: UpdateBus, b: UpdateBus, s: Subscriber)
    requires
        a.ids_distinct(),
        !a.has(s.id),
        b.subs@ == a.subs@.push(s),
    ensures
        b.ids_distinct(),
        b.has(s.id),
        b.idx_of(s.id) == a.subs@.len(),
        b.sub_of(s.id) == s,
        forall|x: u64| #[trigger] b.has(x) ==> a.has(x) || x == s.id,
        forall|x: u64| x != s.id && #[trigger] a.has(x) ==> b.has(x) && b.sub_of(x) == a.sub_of(
            x,
        ),
{
    let n = a.subs@.len() as int;
    assert forall|i: int, j: int|
        0 <= i < j < b.subs@.len() implies b.subs@[i].id != b.subs@[j].id by {
        if j < n {
            assert(a.subs@[i].id != a.subs@[j].id);
        } else {
            assert(b.subs@[j] == s);
            if b.subs@[i].id == s.id {
                lemma_idx_of(a, i);
            }
        }
    }
    assert(b.subs@[n] == s);
    lemma_idx_of(b, n);
    assert forall|x: u64| #[trigger] b.has(x) implies a.has(x) || x == s.id by {
        let j = choose|j: int| 0 <= j < b.subs@.len() && b.subs@[j].id == x;
        if j < n {
            lemma_idx_of(a, j);
        }
    }
    assert forall|x: u64| x != s.id && #[trigger] a.has(x) implies b.has(x) && b.sub_of(x)
        == a.sub_of(x) by {
        let ai = choose|i: int| 0 <= i < a.subs@.len() && a.subs@[i].id == x;
        lemma_idx_of(a, ai);
        assert(b.subs@[ai] == a.subs@[ai]);
        lemma_idx_of(b, ai);
    }
}

/// Effect of replacing the slot at index `k` by one with the same id.
proof fn lemma_update_effect(a: UpdateBus, b: UpdateBus, k: int)
    requires
        a.ids_distinct(),
        0 <= k < a.subs@.len(),
        b.subs@.len() == a.subs@.len(),
        b.subs@[k].id == a.subs@[k].id,
        forall|j: int| 0 <= j < a.subs@.len() && j != k ==> #[trigger] b.subs@[j] == a.subs@[j],
    ensures
        b.ids_distinct(),
        forall|x: u64| #[trigger] b.has(x) <==> #[trigger] a.has(x),
        b.idx_of(a.subs@[k].id) == k,
        b.sub_of(a.subs@[k].id) == b.subs@[k],
        forall|x: u64|
            x != a.subs@[k].id && #[trigger] a.has(x) ==> b.sub_of(x) == a.sub_of(x),
{
    assert forall|i: int, j: int|
        0 <= i < j < b.subs@.len() implies b.subs@[i].id != b.subs@[j].id by {
        assert(b.subs@[i].id == a.subs@[i].id);
        assert(b.subs@[j].id == a.subs@[j].id);
        assert(a.subs@[i].id != a.subs@[j].id);
    }
    assert forall|x: u64| #[trigger] b.has(x) <==> #[trigger] a.has(x) by {
        if b.has(x) {
            let j = choose|j: int| 0 <= j < b.subs@.len() && b.subs@[j].id == x;
            assert(a.subs@[j].id == x);
            lemma_idx_of(a, j);
        }
        if a.has(x) {
            let j = choose|j: int| 0 <= j < a.subs@.len() && a.subs@[j].id == x;
            assert(b.subs@[j].id == x);
            lemma_idx_of(b, j);
        }
    }
    lemma_idx_of(b, k);
    assert forall|x: u64|
        x != a.subs@[k].id && #[trigger] a.has(x) implies b.sub_of(x) == a.sub_of(x) by {
        let ai = choose|i: int| 0 <= i < a.subs@.len() && a.subs@[i].id == x;
        lemma_idx_of(a, ai);
        assert(ai != k);
        lemma_idx_of(b, ai);
    }
}

/// Law (gap-free, order-preserving delivery): for any live subscriber of a
/// well-formed bus, the values it has already received followed by the
/// values still pending for it are exactly the values published since it
/// registered, in publish order — no value is skipped, none is reordered,
/// none arrives twice, and a subscriber present for K publishes is owed
/// exactly those K values.
pub proof fn lemma_subscriber_gap_free(b: UpdateBus, id: u64)
    requires
        b.wf(),
        b.has(id),
    ensures
        b.joined_of(id) <= b.hist@.len(),
        b.seen_of(id) + b.pending(id) == b.hist@.subrange(
            b.joined_of(id) as int,
            b.hist@.len() as int,
        ),
        b.seen_of(id).len() + b.pending(id).len() == b.hist@.len() - b.joined_of(id),
        b.pending(id).len() <= b.cap,
{
    let i = b.idx_of(id);
    assert(0 <= i < b.subs@.len() && b.subs@[i].id == id);
    assert(b.subs@[i].wf(b.hist@, b.cap as nat));
    assert((b.seen_of(id) + b.pending(id)).len() == b.hist@.len() - b.joined_of(id));
}

/// Appending to a sequence and then taking a suffix is taking the suffix
/// and then appending.
proof fn lemma_subrange_push(h: Seq<i32>, a: int, x: i32)
    requires
        0 <= a <= h.len(),
    ensures
        h.push(x).subrange(a, h.len() as int + 1) == h.subrange(a, h.len() as int).push(x),
{
    assert(h.push(x).subrange(a, h.len() as int + 1) =~= h.subrange(a, h.len() as int).push(x));
}

impl UpdateBus {
    /// Registers a new receiver. It observes every value published after
    /// registration: its buffer starts empty at the current end of the
    /// history. Registration never blocks and touches no other subscriber.
    pub fn subscribe(&mut self) -> (id: u64)
        requires
            old(self).wf(),
            old(self).next_id < u64::MAX,
        ensures
            final(self).wf(),
            final(self).next_id == old(self).next_id + 1,
            id == old(self).next_id,
            subscribe_step(*old(self), *final(self), id),
    {
        let id = self.next_id;
        let sub = Subscriber {
            id,
            buf: Vec::new(),
            joined: Ghost(self.hist@.len()),
            seen: Ghost(Seq::empty()),
        };
        proof {
            if old(self).has(id) {
                let i = choose|i: int|
                    0 <= i < old(self).subs@.len() && old(self).subs@[i].id == id;
                assert(old(self).subs@[i].id < old(self).next_id);
            }
        }
        let ghost pre = *self;
        self.subs.push(sub);
        self.next_id = self.next_id + 1;
        proof {
            lemma_push_effect(pre, *self, sub);
            assert(self.sub_of(id).seen@ + self.sub_of(id).buf@ =~= Seq::<i32>::empty());
            assert(self.hist@.subrange(self.hist@.len() as int, self.hist@.len() as int)
                =~= Seq::<i32>::empty());
            assert forall|i: int| 0 <= i < self.subs@.len() implies (#[trigger] self.subs@[i]).wf(
                self.hist@,
                self.cap as nat,
            ) && self.subs@[i].id < self.next_id by {
                if i < pre.subs@.len() {
                    assert(pre.subs@[i].wf(pre.hist@, pre.cap as nat));
                    assert(pre.subs@[i].id < pre.next_id);
                }
            }
        }
        id
    }

    /// Index of the subscriber with this id, if it is live.
    fn find_idx(&self, id: u64) -> (r: Option<usize>)
        ensures
            match r {
                Some(k) => k < self.subs@.len() && self.subs@[k as int].id == id,
                None => !self.has(id),
            },
    {
        let mut k: usize = 0;
        while k < self.subs.len()
            invariant
                k <= self.subs@.len(),
                forall|j: int| 0 <= j < k ==> (#[trigger] self.subs@[j]).id != id,
            decreases self.subs@.len() - k,
        {
            if self.subs[k].id == id {
                return Some(k);
            }
            k += 1;
        }
        None
    }

    /// Whether the receiver with this id is still in the live set.
    pub fn is_live(&self, id: u64) -> (b: bool)
        ensures
            b == self.has(id),
    {
        match self.find_idx(id) {
            Some(k) => {
                proof {
                    assert(self.has(id));
                }
                true
            },
            None => false,
        }
    }

    /// How many receivers are currently live.
    pub fn subscriber_count(&self) -> (n: usize)
        ensures
            n == self.live_count(),
    {
        self.subs.len()
    }

    /// Hands out the oldest undelivered value for this subscriber, if any.
    /// Returns `Some` exactly when the id is live and has a pending value.
    pub fn recv(&mut self, id: u64) -> (r: Option<i32>)
        requires
            old(self).wf(),
        ensures
            final(self).wf(),
            final(self).cap == old(self).cap,
            final(self).next_id == old(self).next_id,
            final(self).hist@ == old(self).hist@,
            final(self).live_count() == old(self).live_count(),
            final(self).has(id) <==> old(self).has(id),
            forall|x: u64| x != id ==> (#[trigger] final(self).has(x) <==> old(self).has(x)),
            forall|x: u64|
                x != id && #[trigger] old(self).has(x) ==> final(self).has(x)
                    && final(self).sub_of(x) == old(self).sub_of(x),
            match r {
                Some(v) => {
                    &&& old(self).has(id)
                    &&& old(self).pending(id).len() > 0
                    &&& v == old(self).pending(id)[0]
                    &&& final(self).pending(id) == old(self).pending(id).subrange(
                        1,
                        old(self).pending(id).len() as int,
                    )
                    &&& final(self).seen_of(id) == old(self).seen_of(id).push(v)
                    &&& final(self).joined_of(id) == old(self).joined_of(id)
                },
                None => {
                    &&& !(old(self).has(id) && old(self).pending(id).len() > 0)
                    &&& old(self).has(id) ==> final(self).sub_of(id) == old(self).sub_of(id)
                },
            },
    {
        match self.find_idx(id) {
            None => None,
            Some(k) => {
                proof {
                    lemma_idx_of(*self, k as int);
                }
                if self.subs[k].buf.len() == 0 {
                    None
                } else {
                    let ghost pre = *self;
                    let v = self.subs[k].buf.remove(0);
                    self.subs[k].seen = Ghost(pre.subs@[k as int].seen@.push(v));
                    proof {
                        lemma_update_effect(pre, *self, k as int);
                        lemma_idx_of(pre, k as int);
                        let s0 = pre.subs@[k as int];
                        let s1 = self.subs@[k as int];
                        assert(s1.seen@ + s1.buf@ =~= s0.seen@ + s0.buf@);
                        assert forall|i: int| 0 <= i < self.subs@.len() implies (
                        #[trigger] self.subs@[i]).wf(self.hist@, self.cap as nat)
                            && self.subs@[i].id < self.next_id by {
                            assert(pre.subs@[i].wf(pre.hist@, pre.cap as nat));
                            assert(pre.subs@[i].id < pre.next_id);
                            if i != k {
                                assert(self.subs@[i] == pre.subs@[i]);
                            }
                        }
                    }
                    Some(v)
                }
            },
        }
    }

    /// Delivers `v` to every live receiver: appends it to the history and
    /// to each buffer with room, and evicts every receiver whose buffer is
    /// already full (the documented slow-consumer policy). Each receiver's
    /// buffer stays within the bound `cap`; no receiver can delay delivery
    /// to another.
    pub fn publish(&mut self, v: i32)
        requires
            old(self).wf(),
        ensures
            final(self).wf(),
            publish_step(*old(self), *final(self), v),
            final(self).live_count() <= old(self).live_count(),
    {
        // Pass 1: evict every subscriber whose buffer is already full.
        let mut i: usize = 0;
        while i < self.subs.len()
            invariant
                old(self).wf(),
                self.cap == old(self).cap,
                self.next_id == old(self).next_id,
                self.hist@ == old(self).hist@,
                i <= self.subs@.len(),
                self.ids_distinct(),
                forall|t: int|
                    0 <= t < self.subs@.len() ==> (#[trigger] self.subs@[t]).wf(
                        self.hist@,
                        self.cap as nat,
                    ) && self.subs@[t].id < self.next_id,
                forall|t: int| 0 <= t < i ==> (#[trigger] self.subs@[t]).buf@.len() < self.cap,
                forall|x: u64|
                    #[trigger] self.has(x) ==> old(self).has(x) && self.sub_of(x) == old(
                        self,
                    ).sub_of(x),
                forall|x: u64|
                    #[trigger] old(self).has(x) && old(self).pending(x).len() < old(self).cap
                        ==> self.has(x),
                self.live_count() <= old(self).live_count(),
            decreases self.subs@.len() - i,
        {
            if self.subs[i].buf.len() >= self.cap {
                let ghost pre = *self;
                let ghost rid = pre.subs@[i as int].id;
                proof {
                    lemma_idx_of(pre, i as int);
                }
                self.subs.remove(i);
                proof {
                    lemma_remove_effect(pre, *self, i as int);
                    assert forall|t: int| 0 <= t < self.subs@.len() implies (
                    #[trigger] self.subs@[t]).wf(self.hist@, self.cap as nat) && self.subs@[t].id
                        < self.next_id by {
                        let at = if t < i { t } else { t + 1 };
                        assert(pre.subs@[at].wf(pre.hist@, pre.cap as nat));
                        assert(pre.subs@[at].id < pre.next_id);
                    }
                    assert forall|x: u64|
                        #[trigger] old(self).has(x) && old(self).pending(x).len() < old(
                            self,
                        ).cap implies self.has(x) by {
                        assert(pre.has(x));
                        if x == rid {
                            assert(pre.sub_of(rid) == pre.subs@[i as int]);
                            assert(old(self).pending(x).len() >= old(self).cap);
                        }
                    }
                }
            } else {
                i += 1;
            }
        }
        // Pass 2: append the value to the history and to every buffer left.
        let ghost mid = *self;
        self.hist = Ghost(self.hist@.push(v));
        let mut j: usize = 0;
        while j < self.subs.len()
            invariant
                old(self).wf(),
                mid.ids_distinct(),
                mid.cap == old(self).cap,
                mid.next_id == old(self).next_id,
                mid.hist@ == old(self).hist@,
                forall|t: int|
                    0 <= t < mid.subs@.len() ==> (#[trigger] mid.subs@[t]).wf(
                        mid.hist@,
                        mid.cap as nat,
                    ) && mid.subs@[t].id < mid.next_id && mid.subs@[t].buf@.len() < mid.cap,
                forall|x: u64|
                    #[trigger] mid.has(x) ==> old(self).has(x) && mid.sub_of(x) == old(
                        self,
                    ).sub_of(x),
                forall|x: u64|
                    #[trigger] old(self).has(x) && old(self).pending(x).len() < old(self).cap
                        ==> mid.has(x),
                mid.subs@.len() <= old(self).subs@.len(),
                self.cap == mid.cap,
                self.next_id == mid.next_id,
                self.hist@ == mid.hist@.push(v),
                j <= self.subs@.len(),
                self.subs@.len() == mid.subs@.len(),
                forall|t: int|
                    0 <= t < j ==> {
                        &&& (#[trigger] self.subs@[t]).id == mid.subs@[t].id
                        &&& self.subs@[t].joined == mid.subs@[t].joined
                        &&& self.subs@[t].seen == mid.subs@[t].seen
                        &&& self.subs@[t].buf@ == mid.subs@[t].buf@.push(v)
                    },
                forall|t: int| j <= t < self.subs@.len() ==> #[trigger] self.subs@[t]
                    == mid.subs@[t],
            decreases self.subs@.len() - j,
        {
            self.subs[j].buf.push(v);
            j += 1;
        }
        proof {
            let post = *self;
            let prev = *old(self);
            assert forall|t: int|
                0 <= t < post.subs@.len() implies (#[trigger] post.subs@[t]).wf(
                post.hist@,
                post.cap as nat,
            ) && post.subs@[t].id < post.next_id by {
                let s0 = mid.subs@[t];
                let s1 = post.subs@[t];
                assert(s0.wf(mid.hist@, mid.cap as nat));
                lemma_subrange_push(mid.hist@, s0.joined@ as int, v);
                assert(s1.seen@ + s1.buf@ =~= (s0.seen@ + s0.buf@).push(v));
            }
            assert forall|i2: int, j2: int|
                0 <= i2 < j2 < post.subs@.len() implies post.subs@[i2].id != post.subs@[j2].id by {
                assert(post.subs@[i2].id == mid.subs@[i2].id);
                assert(post.subs@[j2].id == mid.subs@[j2].id);
            }
            assert forall|x: u64| #[trigger] post.has(x) implies prev.has(x) by {
                let t = choose|t: int| 0 <= t < post.subs@.len() && post.subs@[t].id == x;
                assert(mid.subs@[t].id == x);
                lemma_idx_of(mid, t);
            }
            assert forall|x: u64|
                #[trigger] prev.has(x) && prev.pending(x).len() < prev.cap implies {
                &&& post.has(x)
                &&& post.pending(x) == prev.pending(x).push(v)
                &&& post.seen_of(x) == prev.seen_of(x)
                &&& post.joined_of(x) == prev.joined_of(x)
            } by {
                assert(mid.has(x));
                let t = mid.idx_of(x);
                assert(0 <= t < mid.subs@.len() && mid.subs@[t].id == x);
                lemma_idx_of(mid, t);
                assert(post.subs@[t].id == x);
                lemma_idx_of(post, t);
            }
            assert forall|x: u64|
                #[trigger] prev.has(x) && prev.pending(x).len() >= prev.cap implies !post.has(
                x,
            ) by {
                if post.has(x) {
                    let t = choose|t: int| 0 <= t < post.subs@.len() && post.subs@[t].id == x;
                    assert(mid.subs@[t].id == x);
                    lemma_idx_of(mid, t);
                    assert(mid.subs@[t].buf@.len() < mid.cap);
                    assert(prev.pending(x).len() < prev.cap);
                }
            }
        }
    }

    /// Deregisters the receiver with this id, if live: it leaves the live
    /// set at once, and no other subscriber is affected.
    pub fn unsubscribe(&mut self, id: u64)
        requires
            old(self).wf(),
        ensures
            final(self).wf(),
            final(self).cap == old(self).cap,
            final(self).next_id == old(self).next_id,
            final(self).hist@ == old(self).hist@,
            !final(self).has(id),
            forall|x: u64| x != id ==> (#[trigger] final(self).has(x) <==> old(self).has(x)),
            forall|x: u64|
                x != id && #[trigger] old(self).has(x) ==> final(self).has(x)
                    && final(self).sub_of(x) == old(self).sub_of(x),
            final(self).live_count() == if old(self).has(id) {
                (old(self).live_count() - 1) as nat
            } else {
                old(self).live_count()
            },
    {
        match self.find_idx(id) {
            None => {},
            Some(k) => {
                proof {
                    lemma_idx_of(*self, k as int);
                }
                let ghost pre = *self;
                self.subs.remove(k);
                proof {
                    lemma_remove_effect(pre, *self, k as int);
                    assert forall|i: int| 0 <= i < self.subs@.len() implies (
                    #[trigger] self.subs@[i]).wf(self.hist@, self.cap as nat) && self.subs@[i].id
                        < self.next_id by {
                        let ai = if i < k { i } else { i + 1 };
                        assert(pre.subs@[ai].wf(pre.hist@, pre.cap as nat));
                        assert(pre.subs@[ai].id < pre.next_id);
                    }
                }
            },
        }
    }
}

} // verus!
