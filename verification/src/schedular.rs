use std::collections::VecDeque;
use vstd::hash_set::StringHashSet;
use vstd::prelude::*;

verus! {

/// Represents lifecycle changes for a resource.
/// These events are typically converted into keys for the work queue.
#[derive(Debug, Clone)]
pub enum Event {
    Put(String),
    Delete(String),
}

/// The keys of a queue of strings, each taken by its view.
pub open spec fn key_views(q: Seq<String>) -> Seq<Seq<char>> {
    q.map_values(|s: String| s@)
}

/// The queue after `push(key)`: a key that is already waiting is not
/// queued a second time; any other key joins at the back.
pub open spec fn queue_after_push(q: Seq<Seq<char>>, key: Seq<char>) -> Seq<Seq<char>> {
    if q.contains(key) {
        q
    } else {
        q.push(key)
    }
}

/// The key that `pop` hands out next, if any.
pub open spec fn next_key(q: Seq<Seq<char>>) -> Option<Seq<char>> {
    if q.len() == 0 {
        None
    } else {
        Some(q[0])
    }
}

/// The queue after `pop`.
pub open spec fn queue_after_pop(q: Seq<Seq<char>>) -> Seq<Seq<char>> {
    if q.len() == 0 {
        q
    } else {
        q.drop_first()
    }
}

/// The queue after pushing each of `keys` in turn, first to last.
pub open spec fn queue_after_pushes(q: Seq<Seq<char>>, keys: Seq<Seq<char>>) -> Seq<Seq<char>>
    decreases keys.len(),
{
    if keys.len() == 0 {
        q
    } else {
        queue_after_push(queue_after_pushes(q, keys.drop_last()), keys.last())
    }
}

/// A queue with a key waiting hands out its front key and keeps the rest
/// in order; an empty queue hands out nothing and stays empty.
pub proof fn lemma_pop_takes_front(q: Seq<Seq<char>>)
    ensures
        q.len() > 0 ==> next_key(q) == Some(q[0]) && queue_after_pop(q) == q.drop_first(),
        q.len() == 0 ==> next_key(q) is None && queue_after_pop(q) == q,
{
}

/// Pushing a key that is already waiting leaves the queue as it was.
pub proof fn lemma_push_waiting_key_is_noop(q: Seq<Seq<char>>, key: Seq<char>)
    requires
        q.contains(key),
    ensures
        queue_after_push(q, key) == q,
{
}

/// Pushing a key that was just pushed changes nothing: a key is scheduled
/// at most once, however many events name it.
pub proof fn lemma_push_idempotent(q: Seq<Seq<char>>, key: Seq<char>)
    ensures
        queue_after_push(queue_after_push(q, key), key) == queue_after_push(q, key),
{
    assert(queue_after_push(q, key).contains(key)) by {
        if !q.contains(key) {
            assert(q.push(key)[q.len() as int] == key);
        }
    }
}

/// After a push the key is waiting, and a queue in which no key occurs
/// twice stays so.
pub proof fn lemma_push_schedules_once(q: Seq<Seq<char>>, key: Seq<char>)
    requires
        q.no_duplicates(),
    ensures
        queue_after_push(q, key).contains(key),
        queue_after_push(q, key).no_duplicates(),
{
    if !q.contains(key) {
        assert(q.push(key)[q.len() as int] == key);
    }
}

/// A key that is not waiting joins at the back: it is handed out after
/// every key that was already waiting, in first-in first-out order.
pub proof fn lemma_push_joins_at_back(q: Seq<Seq<char>>, key: Seq<char>)
    requires
        !q.contains(key),
    ensures
        queue_after_push(q, key) == q + seq![key],
{
    assert(q.push(key) =~= q + seq![key]);
}

/// A push never changes which key is handed out next.
pub proof fn lemma_push_keeps_next(q: Seq<Seq<char>>, key: Seq<char>)
    requires
        q.len() > 0,
    ensures
        next_key(queue_after_push(q, key)) == next_key(q),
{
}

/// Pushing a new key at the back and popping at the front commute.
pub proof fn lemma_push_pop_commute(q: Seq<Seq<char>>, key: Seq<char>)
    requires
        q.len() > 0,
        !q.contains(key),
    ensures
        queue_after_pop(queue_after_push(q, key)) == queue_after_push(queue_after_pop(q), key),
{
    assert(!q.drop_first().contains(key)) by {
        if q.drop_first().contains(key) {
            let j = choose|j: int| 0 <= j < q.drop_first().len() && q.drop_first()[j] == key;
            assert(q[j + 1] == key);
        }
    }
    assert(q.push(key).drop_first() =~= q.drop_first().push(key));
}

/// Once a key has been handed out it is no longer waiting, so the next
/// push of it queues it again at the back.
pub proof fn lemma_popped_key_requeues(q: Seq<Seq<char>>)
    requires
        q.len() > 0,
        q.no_duplicates(),
    ensures
        !queue_after_pop(q).contains(q[0]),
        queue_after_push(queue_after_pop(q), q[0]) == queue_after_pop(q).push(q[0]),
{
    if q.drop_first().contains(q[0]) {
        let j = choose|j: int| 0 <= j < q.drop_first().len() && q.drop_first()[j] == q[0];
        assert(q[j + 1] == q[0]);
    }
}

/// Pushing a batch of keys (as a periodic resync does with every stored
/// key) leaves each of them waiting, keeps the waiting keys distinct, and
/// leaves the keys that were waiting before at the front, in their order.
pub proof fn lemma_pushes_schedule_all(q: Seq<Seq<char>>, keys: Seq<Seq<char>>)
    requires
        q.no_duplicates(),
    ensures
        queue_after_pushes(q, keys).no_duplicates(),
        forall|i: int| 0 <= i < keys.len() ==> queue_after_pushes(q, keys).contains(#[trigger] keys[i]),
        queue_after_pushes(q, keys).subrange(0, q.len() as int) == q,
        q.len() <= queue_after_pushes(q, keys).len() <= q.len() + keys.len(),
    decreases keys.len(),
{
    if keys.len() > 0 {
        let prev = queue_after_pushes(q, keys.drop_last());
        lemma_pushes_schedule_all(q, keys.drop_last());
        lemma_push_schedules_once(prev, keys.last());
        let next = queue_after_push(prev, keys.last());
        assert forall|i: int| 0 <= i < keys.len() implies next.contains(#[trigger] keys[i]) by {
            if i < keys.len() - 1 {
                assert(keys.drop_last()[i] == keys[i]);
                let j = choose|j: int| 0 <= j < prev.len() && prev[j] == keys[i];
                if !prev.contains(keys.last()) {
                    assert(next[j] == keys[i]);
                }
            }
        }
        if !prev.contains(keys.last()) {
            assert(next.subrange(0, q.len() as int) =~= prev.subrange(0, q.len() as int));
        }
    }
}

/// One call on a work queue, as a history of calls records it.
pub enum QueueCall {
    /// `push` of the key with this view.
    Push(Seq<char>),
    /// `pop`.
    Pop,
}

/// The queue after one call.
pub open spec fn queue_after_call(q: Seq<Seq<char>>, call: QueueCall) -> Seq<Seq<char>> {
    match call {
        QueueCall::Push(key) => queue_after_push(q, key),
        QueueCall::Pop => queue_after_pop(q),
    }
}

/// The queue after a history of calls on a new, empty queue.
pub open spec fn queue_after_history(h: Seq<QueueCall>) -> Seq<Seq<char>>
    decreases h.len(),
{
    if h.len() == 0 {
        Seq::empty()
    } else {
        queue_after_call(queue_after_history(h.drop_last()), h.last())
    }
}

/// The key that call `i` of history `h` hands out: for a pop, the next key
/// of the queue left by the calls before it; a push hands out nothing.
pub open spec fn handed_out(h: Seq<QueueCall>, i: int) -> Option<Seq<char>> {
    if h[i] is Pop {
        next_key(queue_after_history(h.take(i)))
    } else {
        None
    }
}

/// Call `j` of `h` queued `key` (appended it, it was not a no-op), and no
/// call after it and before call `n` handed the key out.
pub open spec fn queued_and_pending(h: Seq<QueueCall>, j: int, n: int, key: Seq<char>) -> bool {
    &&& 0 <= j < n
    &&& h[j] == QueueCall::Push(key)
    &&& !queue_after_history(h.take(j)).contains(key)
    &&& forall|m: int| j < m < n ==> #[trigger] handed_out(h, m) != Some(key)
}

proof fn lemma_history_step(h: Seq<QueueCall>, n: int)
    requires
        0 <= n < h.len(),
    ensures
        queue_after_history(h.take(n + 1)) == queue_after_call(queue_after_history(h.take(n)), h[n]),
{
    assert(h.take(n + 1).drop_last() =~= h.take(n));
}

proof fn lemma_history_distinct(h: Seq<QueueCall>, n: int)
    requires
        0 <= n <= h.len(),
    ensures
        queue_after_history(h.take(n)).no_duplicates(),
    decreases n,
{
    if n == 0 {
        assert(h.take(0) =~= Seq::<QueueCall>::empty());
    } else {
        lemma_history_distinct(h, n - 1);
        lemma_history_step(h, n - 1);
        let q = queue_after_history(h.take(n - 1));
        match h[n - 1] {
            QueueCall::Push(key) => {
                lemma_push_schedules_once(q, key);
            },
            QueueCall::Pop => {
                if q.len() > 0 {
                    assert forall|a: int, b: int|
                        0 <= a < b < q.drop_first().len() implies q.drop_first()[a] != q.drop_first()[b] by {
                        assert(q[a + 1] != q[b + 1]);
                    }
                }
            },
        }
    }
}

proof fn lemma_waiting_keys_were_queued(h: Seq<QueueCall>, n: int)
    requires
        0 <= n <= h.len(),
    ensures
        forall|x: Seq<char>|
            #[trigger] queue_after_history(h.take(n)).contains(x) ==> exists|j: int|
                queued_and_pending(h, j, n, x),
    decreases n,
{
    if n == 0 {
        assert(h.take(0) =~= Seq::<QueueCall>::empty());
    } else {
        let p = n - 1;
        let q = queue_after_history(h.take(p));
        let q2 = queue_after_history(h.take(n));
        lemma_waiting_keys_were_queued(h, n - 1);
        lemma_history_distinct(h, n - 1);
        lemma_history_step(h, n - 1);
        assert forall|x: Seq<char>| q2.contains(x) implies exists|j: int| queued_and_pending(h, j, n, x) by {
            match h[n - 1] {
                QueueCall::Push(key) => {
                    if q.contains(x) {
                        let j = choose|j: int| queued_and_pending(h, j, p, x);
                        assert forall|m: int| j < m < n implies #[trigger] handed_out(h, m) != Some(x) by {
                            if m < n - 1 {
                                assert(queued_and_pending(h, j, n - 1, x));
                            }
                        }
                        assert(queued_and_pending(h, j, n, x));
                    } else {
                        assert(q.push(key).contains(x));
                        let i = choose|i: int| 0 <= i < q.push(key).len() && q.push(key)[i] == x;
                        if i < q.len() {
                            assert(q[i] == x);
                        }
                        assert(x == key);
                        assert(queued_and_pending(h, n - 1, n, x));
                    }
                },
                QueueCall::Pop => {
                    if q.len() == 0 {
                        assert(q2 =~= q);
                    } else {
                        let i = choose|i: int| 0 <= i < q.drop_first().len() && q.drop_first()[i] == x;
                        assert(q[i + 1] == x);
                        assert(q.contains(x));
                        assert(x != q[0]);
                        let j = choose|j: int| queued_and_pending(h, j, p, x);
                        assert forall|m: int| j < m < n implies #[trigger] handed_out(h, m) != Some(x) by {
                            if m < n - 1 {
                                assert(queued_and_pending(h, j, n - 1, x));
                            }
                        }
                        assert(queued_and_pending(h, j, n, x));
                    }
                },
            }
        }
    }
}

/// Over any history of calls on a new queue, a pop hands out only a key
/// that an earlier push queued (appended, not a no-op) and that is still
/// waiting, with no pop in between having handed it out; and while the
/// queue is empty a pop hands out nothing.
pub proof fn lemma_pop_hands_out_queued_key(h: Seq<QueueCall>, i: int)
    requires
        0 <= i < h.len(),
    ensures
        handed_out(h, i) matches Some(key) ==> {
            &&& queue_after_history(h.take(i)).contains(key)
            &&& exists|j: int| queued_and_pending(h, j, i, key)
        },
        queue_after_history(h.take(i)).len() == 0 ==> handed_out(h, i) is None,
        h[i] is Pop && queue_after_history(h.take(i)).len() > 0 ==> handed_out(h, i) == Some(
            queue_after_history(h.take(i))[0],
        ),
{
    lemma_waiting_keys_were_queued(h, i);
    let q = queue_after_history(h.take(i));
    if h[i] is Pop && q.len() > 0 {
        assert(q.contains(q[0]));
    }
}

/// The state of a de-duplicating work queue of resource keys.
///
/// The ordered list of keys awaiting reconciliation is kept together with
/// the set of keys currently in it, so that a key is only queued once,
/// however many events name it.
pub struct WorkQueue {
    /// The ordered list of resource keys awaiting reconciliation.
    queue: VecDeque<String>,
    /// The keys currently in the queue.
    in_queue: StringHashSet,
}

impl View for WorkQueue {
    type V = Seq<Seq<char>>;

    /// The waiting keys, front first.
    closed spec fn view(&self) -> Seq<Seq<char>> {
        key_views(self.queue@)
    }
}

impl WorkQueue {
    /// The set of keys agrees with the list, and no key is listed twice.
    #[verifier::type_invariant]
    closed spec fn wf(&self) -> bool {
        &&& key_views(self.queue@).no_duplicates()
        &&& self.in_queue@ == key_views(self.queue@).to_set()
    }

    /// Initializes an empty queue.
    pub fn new() -> (wq: Self)
        ensures
            wq@ == Seq::<Seq<char>>::empty(),
    {
        let queue: VecDeque<String> = VecDeque::new();
        let in_queue = StringHashSet::new();
        assert(key_views(queue@) =~= Seq::<Seq<char>>::empty());
        assert(in_queue@ =~= Seq::<Seq<char>>::empty().to_set());
        WorkQueue { queue, in_queue }
    }

    /// Adds a key to the queue if it isn't already present.
    ///
    /// Returns `true` when the key was queued, which is when a waiting
    /// worker is to be woken; `false` when the key was already scheduled.
    pub fn push(&mut self, key: String) -> (queued: bool)
        ensures
            queued == !old(self)@.contains(key@),
            final(self)@ == queue_after_push(old(self)@, key@),
            old(self)@.contains(key@) ==> final(self)@ == old(self)@,
            !old(self)@.contains(key@) ==> final(self)@ == old(self)@.push(key@),
            final(self)@.no_duplicates(),
    {
        proof {
            use_type_invariant(&*self);
        }
        if self.in_queue.contains(key.as_str()) {
            return false;
        }
        let mut taken = WorkQueue::new();
        std::mem::swap(self, &mut taken);
        let WorkQueue { mut queue, mut in_queue } = taken;
        let ghost q0 = queue@;
        let copy = key.clone();
        in_queue.insert(copy);
        queue.push_back(key);
        proof {
            assert(key_views(queue@) =~= key_views(q0).push(key@));
            assert(in_queue@ =~= key_views(queue@).to_set()) by {
                broadcast use vstd::seq_lib::group_seq_properties;
            }
        }
        *self = WorkQueue { queue, in_queue };
        true
    }

    /// Pulls the next key from the front of the queue, or `None` when
    /// nothing is waiting. The key handed out is no longer waiting, so it
    /// may be queued again at once.
    pub fn pop(&mut self) -> (key: Option<String>)
        ensures
            key matches Some(k) ==> next_key(old(self)@) == Some(k@),
            key is None ==> next_key(old(self)@) is None,
            final(self)@ == queue_after_pop(old(self)@),
            old(self)@.len() > 0 ==> key is Some && key->0@ == old(self)@[0]
                && final(self)@ == old(self)@.drop_first(),
            old(self)@.len() == 0 ==> key is None && final(self)@ == old(self)@,
            key matches Some(k) ==> !final(self)@.contains(k@),
            final(self)@.no_duplicates(),
    {
        proof {
            use_type_invariant(&*self);
        }
        let mut taken = WorkQueue::new();
        std::mem::swap(self, &mut taken);
        proof {
            use_type_invariant(&taken);
        }
        let WorkQueue { mut queue, mut in_queue } = taken;
        let ghost q0 = queue@;
        let ghost kv = key_views(q0);
        let key = queue.pop_front();
        match &key {
            Some(k) => {
                in_queue.remove(k.as_str());
                proof {
                    assert(key_views(queue@) =~= kv.drop_first());
                    assert(kv =~= seq![kv[0]] + kv.drop_first());
                    assert forall|x: Seq<char>| kv.drop_first().contains(x) implies x != kv[0] by {
                        let j = choose|j: int| 0 <= j < kv.drop_first().len() && kv.drop_first()[j] == x;
                        assert(kv[j + 1] == x);
                    }
                    assert(in_queue@ =~= key_views(queue@).to_set()) by {
                        broadcast use vstd::seq_lib::group_seq_properties;
                    }
                }
            },
            None => {
                assert(kv =~= Seq::<Seq<char>>::empty());
            },
        }
        *self = WorkQueue { queue, in_queue };
        key
    }
}

} // verus!
