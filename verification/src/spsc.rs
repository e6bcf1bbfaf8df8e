//! Bounded single-producer/single-consumer FIFO queue.
//!
//! A [`Queue`] is a ring of `capacity` slots driven by two counters: `head`
//! counts completed pops, `tail` counts completed pushes. Both counters live
//! in `[0, 2 * capacity)` and advance modulo `2 * capacity`, so the number of
//! pending values is always recoverable as the wrapped distance from `head`
//! to `tail`, and the slot a counter value `n` addresses is `n % capacity`.
//! A sticky `closed` flag, merged into the shared record beside the counters,
//! tells each side when the other one is gone.
//!
//! [`Queue::new`] splits one queue into a [`Sender`] and a [`Receiver`] that
//! share it. Dropping either handle is what closes the queue: the surviving
//! handle observes that it holds the last reference to the shared store and
//! marks the queue closed before its next operation.

use std::sync::Arc;
use vstd::prelude::*;
use vstd::rwlock::{RwLock, RwLockPredicate};
use vstd::arithmetic::div_mod::{
    lemma_mod_division_less_than_divisor, lemma_mod_multiples_vanish, lemma_mod_self_0,
    lemma_small_mod, lemma_sub_mod_noop,
};

verus! {

/// One storage cell of the ring: empty until a push writes it, emptied again
/// by the pop that takes the value out.
struct Elem<T> {
    data: Option<T>,
}

impl<T> Elem<T> {
    fn uninit() -> (e: Self)
        ensures
            e.data is None,
    {
        Self { data: None }
    }
}

/// Why a push was refused. Both variants hand the offered value back to the
/// caller, so nothing is ever silently dropped.
#[derive(Debug)]
pub enum PushError<T> {
    /// The ring holds `capacity` values; retrying after a pop may succeed.
    Full(T),
    /// A handle was dropped; no retry can ever succeed.
    Closed(T),
}

/// Why a pop came back empty-handed.
#[derive(Debug, Eq, PartialEq)]
pub enum PopError {
    /// No value is pending, but the producer may still publish one.
    Empty,
    /// No value is pending and none will ever arrive again.
    Closed,
}

/// Wrapped distance from `head` to `tail` on a ring of `ring` counter values:
/// the number of pushes that no pop has answered yet.
pub open spec fn dist(head: int, tail: int, ring: int) -> int {
    if tail >= head {
        tail - head
    } else {
        tail + ring - head
    }
}

/// The relation [`Queue::pop`]'s contract establishes between the queue
/// before the call (`q`), the queue after it (`q2`), and the result: `Ok`
/// returns the oldest pending value and removes it, `Empty` and `Closed`
/// leave the queue unchanged and appear exactly on an empty open queue and an
/// empty closed queue respectively.
pub open spec fn pop_step<T>(q: Queue<T>, q2: Queue<T>, r: Result<T, PopError>) -> bool {
    match r {
        Ok(v) => q@.len() > 0 && v == q@[0] && q2@ == q@.drop_first(),
        Err(PopError::Empty) => !q.is_closed() && q@.len() == 0 && q2 == q,
        Err(PopError::Closed) => q.is_closed() && q@.len() == 0 && q2 == q,
    }
}

/// The ring buffer itself, usable directly as a sequential queue or split
/// into its two handles by [`Queue::new`].
pub struct Queue<T> {
    /// Counter of completed pops, in `[0, 2 * capacity)`; advanced only by pop.
    head: usize,
    /// Counter of completed pushes, in `[0, 2 * capacity)`; advanced only by push.
    tail: usize,
    /// Sticky close flag: set once, never cleared.
    closed: bool,
    /// The `capacity` slots; slot `n % capacity` backs counter value `n`.
    buffer: Vec<Elem<T>>,
}

impl<T> Queue<T> {
    /// Number of slots; fixed at construction.
    pub closed spec fn capacity(self) -> int {
        self.buffer.len() as int
    }

    /// Modulus of the two counters: twice the capacity, so that a full ring
    /// (`dist == capacity`) is still distinguishable from an empty one.
    pub closed spec fn ring(self) -> int {
        2 * self.capacity()
    }

    /// Whether a drop of either handle has closed the queue.
    pub closed spec fn is_closed(self) -> bool {
        self.closed
    }

    /// Number of values pushed but not yet popped.
    pub closed spec fn size(self) -> int {
        dist(self.head as int, self.tail as int, self.ring())
    }

    /// The slot that holds the `i`-th pending value (counting from the
    /// oldest); for `i == size()`, the slot the next push writes.
    pub closed spec fn slot(self, i: int) -> int {
        (self.head + i) % self.capacity()
    }

    /// Structural invariant: counters in range, at most `capacity` values
    /// pending, and a slot holds a value exactly when the counters say so.
    pub closed spec fn wf(self) -> bool {
        &&& 0 < self.capacity()
        &&& self.capacity() <= usize::MAX as int / 2
        &&& (self.head as int) < self.ring()
        &&& (self.tail as int) < self.ring()
        &&& self.size() <= self.capacity()
        &&& forall|j: int|
            0 <= j < self.capacity() ==> ((#[trigger] self.buffer[self.slot(j)].data) is Some
                <==> j < self.size())
    }

    /// Builds an open queue with `capacity` empty slots.
    pub fn new_queue(capacity: usize) -> (q: Self)
        requires
            0 < capacity,
            capacity <= usize::MAX / 2,
        ensures
            q.wf(),
            q@ == Seq::<T>::empty(),
            q.capacity() == capacity,
            !q.is_closed(),
    {
        let mut buffer: Vec<Elem<T>> = Vec::new();
        let mut i: usize = 0;
        while i < capacity
            invariant
                i <= capacity,
                buffer@.len() == i,
                forall|j: int| 0 <= j < i ==> (#[trigger] buffer@[j].data) is None,
            decreases capacity - i,
        {
            buffer.push(Elem::uninit());
            i += 1;
        }
        let q = Queue { head: 0, tail: 0, closed: false, buffer };
        proof {
            assert forall|j: int| 0 <= j < q.capacity() implies !((#[trigger] q.buffer[q.slot(
                j,
            )].data) is Some) by {
                lemma_small_mod(j as nat, q.capacity() as nat);
            }
            assert(q@ =~= Seq::<T>::empty());
        }
        q
    }

    /// Attempts to enqueue one value. On success the value is appended to the
    /// pending sequence; on failure it comes back untouched inside the error:
    /// `Closed` once the queue is closed, `Full` when `capacity` values are
    /// already pending.
    pub fn push(&mut self, elem: T) -> (r: Result<(), PushError<T>>)
        requires
            old(self).wf(),
        ensures
            final(self).wf(),
            final(self).capacity() == old(self).capacity(),
            final(self).is_closed() == old(self).is_closed(),
            match r {
                Ok(()) => !old(self).is_closed() && old(self)@.len() < old(self).capacity()
                    && final(self)@ == old(self)@.push(elem),
                Err(PushError::Closed(v)) => v == elem && old(self).is_closed() && *final(self)
                    == *old(self),
                Err(PushError::Full(v)) => v == elem && !old(self).is_closed() && old(
                    self,
                )@.len() == old(self).capacity() && *final(self) == *old(self),
            },
    {
        if self.closed {
            return Err(PushError::Closed(elem));
        }
        let cap = self.buffer.len();
        let size = if self.tail >= self.head {
            self.tail - self.head
        } else {
            self.tail + (2 * cap - self.head)
        };
        if size == cap {
            return Err(PushError::Full(elem));
        }
        let index = self.tail % cap;
        proof {
            lemma_mod_division_less_than_divisor(self.tail as int, cap as int);
            // `index` is the slot of offset `size`: the counters satisfy
            // tail == head + size  or  tail + ring == head + size.
            if self.tail < self.head {
                lemma_slot_of_counter(self.tail as int, 1, cap as int);
            }
            assert(index == self.slot(size as int));
        }
        let slot = &mut self.buffer[index];
        slot.data = Some(elem);
        self.tail = (self.tail + 1) % (2 * cap);
        proof {
            let ghost q0 = *old(self);
            let ghost cap_i = cap as int;
            let ghost s = q0.size();
            lemma_wrap_advance(q0.tail as int, 2 * cap_i);
            assert(self.size() == s + 1);
            assert(index == q0.slot(s));
            assert(self.buffer@ == q0.buffer@.update(index as int, self.buffer@[index as int]));
            assert forall|j: int|
                0 <= j < cap_i implies ((#[trigger] self.buffer[self.slot(j)].data) is Some <==> j
                < self.size()) by {
                assert(self.slot(j) == q0.slot(j));
                assert((q0.buffer[q0.slot(j)].data is Some) <==> j < s);
                if j != s {
                    lemma_offset_injective(q0.head as int, cap_i, j, s);
                    assert(self.slot(j) != index);
                    assert(self.buffer@[self.slot(j)] == q0.buffer@[q0.slot(j)]);
                } else {
                    assert(self.buffer@[self.slot(j)].data == Some(elem));
                }
            }
            assert forall|i: int| 0 <= i < s + 1 implies self@[i] == q0@.push(elem)[i] by {
                if i < s {
                    lemma_offset_injective(q0.head as int, cap_i, i, s);
                }
            }
            assert(self@ =~= q0@.push(elem));
        }
        Ok(())
    }

    /// Attempts to dequeue the oldest pending value. `Empty` and `Closed`
    /// both mean "nothing pending"; they differ in whether a value can still
    /// arrive. Closing never hides values: pending ones stay poppable.
    pub fn pop(&mut self) -> (r: Result<T, PopError>)
        requires
            old(self).wf(),
        ensures
            final(self).wf(),
            final(self).capacity() == old(self).capacity(),
            final(self).is_closed() == old(self).is_closed(),
            pop_step(*old(self), *final(self), r),
    {
        let cap = self.buffer.len();
        let size = if self.tail >= self.head {
            self.tail - self.head
        } else {
            self.tail + (2 * cap - self.head)
        };
        if size == 0 {
            if self.closed {
                return Err(PopError::Closed);
            }
            return Err(PopError::Empty);
        }
        let index = self.head % cap;
        proof {
            lemma_mod_division_less_than_divisor(self.head as int, cap as int);
            assert(index == self.slot(0));
        }
        let slot = &mut self.buffer[index];
        let taken = slot.data.take();
        self.head = (self.head + 1) % (2 * cap);
        proof {
            let ghost q0 = *old(self);
            let ghost cap_i = cap as int;
            let ghost s = q0.size();
            lemma_wrap_advance(q0.head as int, 2 * cap_i);
            if q0.head + 1 == 2 * cap_i {
                // the head counter wrapped; it still addresses the same slots
                assert forall|j: int| 0 <= j < cap_i implies self.slot(j) == (q0.head + 1 + j)
                    % cap_i by {
                    lemma_slot_of_counter(j, 1, cap_i);
                }
            }
            assert(self.size() == s - 1);
            assert(self.buffer@ == q0.buffer@.update(index as int, self.buffer@[index as int]));
            assert(self.buffer@[index as int].data is None);
            assert forall|j: int|
                0 <= j < cap_i implies ((#[trigger] self.buffer[self.slot(j)].data) is Some <==> j
                < self.size()) by {
                if j + 1 < cap_i {
                    assert(self.slot(j) == q0.slot(j + 1));
                    assert((q0.buffer[q0.slot(j + 1)].data is Some) <==> j + 1 < s);
                    lemma_offset_injective(q0.head as int, cap_i, 0, j + 1);
                    assert(self.slot(j) != index);
                    assert(self.buffer@[self.slot(j)] == q0.buffer@[q0.slot(j + 1)]);
                } else {
                    // j + 1 == capacity: this offset wraps back onto the slot
                    // the value was just taken from, which is empty again.
                    lemma_mod_multiples_vanish(1, q0.head as int, cap_i);
                    assert(self.slot(j) == index);
                }
            }
            assert forall|j: int| 0 <= j < s - 1 implies self@[j] == q0@.drop_first()[j] by {
                assert(self.slot(j) == q0.slot(j + 1));
                lemma_offset_injective(q0.head as int, cap_i, 0, j + 1);
                assert(self.buffer@[self.slot(j)] == q0.buffer@[q0.slot(j + 1)]);
            }
            assert(self@ =~= q0@.drop_first());
            assert((q0.buffer[q0.slot(0)].data is Some) && taken == q0.buffer[q0.slot(0)].data);
        }
        match taken {
            Some(value) => Ok(value),
            None => unreached(),
        }
    }

    /// Marks the queue closed. Pending values remain poppable; new pushes are
    /// refused. Closing is idempotent and irreversible.
    pub fn set_closed(&mut self)
        requires
            old(self).wf(),
        ensures
            final(self).wf(),
            final(self)@ == old(self)@,
            final(self).capacity() == old(self).capacity(),
            final(self).is_closed(),
    {
        self.closed = true;
        proof {
            assert forall|j: int|
                0 <= j < self.capacity() implies ((#[trigger] self.buffer[self.slot(
                j,
            )].data) is Some <==> j < self.size()) by {
                assert((old(self).buffer[old(self).slot(j)].data is Some) <==> j < old(
                    self,
                ).size());
            }
            assert(self@ =~= old(self)@);
        }
    }

    /// Creates a queue with `capacity` slots and splits it into its two
    /// handles, the only ones that will ever exist for this store: both
    /// handles hold the same store, whose lock invariant pins the capacity.
    #[allow(clippy::new_ret_no_self)]
    pub fn new(capacity: usize) -> (r: (Sender<T>, Receiver<T>))
        requires
            0 < capacity,
            capacity <= usize::MAX / 2,
        ensures
            r.0.store() == r.1.store(),
            r.0.store().pred() == (QueuePred { capacity: capacity as int }),
    {
        let queue = Arc::new(
            RwLock::new(
                Self::new_queue(capacity),
                Ghost(QueuePred { capacity: capacity as int }),
            ),
        );
        let clone = share(&queue);
        (Sender { queue: clone }, Receiver { queue })
    }
}

/// Offsets within the pending window map to distinct slots: for offsets
/// `a != b` below `capacity`, `(head + a) % capacity != (head + b) % capacity`.
proof fn lemma_offset_injective(head: int, cap: int, a: int, b: int)
    requires
        0 < cap,
        0 <= head,
        0 <= a < cap,
        0 <= b < cap,
        a != b,
    ensures
        (head + a) % cap != (head + b) % cap,
{
    if (head + a) % cap == (head + b) % cap {
        lemma_sub_mod_noop(head + a, head + b, cap);
        lemma_small_mod(0nat, cap as nat);
        assert((a - b) % cap == 0);
        if a > b {
            lemma_small_mod((a - b) as nat, cap as nat);
        } else {
            lemma_mod_multiples_vanish(1, a - b, cap);
            lemma_small_mod((cap + a - b) as nat, cap as nat);
        }
        assert(false);
    }
}

/// Advancing a counter on the ring: one step forward, wrapping to zero when
/// it reaches the modulus.
proof fn lemma_wrap_advance(x: int, ring: int)
    requires
        0 <= x < ring,
        1 < ring,
    ensures
        (x + 1) % ring == if x + 1 == ring {
            0int
        } else {
            x + 1
        },
{
    if x + 1 == ring {
        lemma_mod_self_0(ring);
    } else {
        lemma_small_mod((x + 1) as nat, ring as nat);
    }
}

/// A counter and the same counter shifted by a whole number of rings address
/// the same slot, because `capacity` divides the ring modulus.
proof fn lemma_slot_of_counter(n: int, k: int, cap: int)
    requires
        0 < cap,
    ensures
        (n + 2 * cap * k) % cap == n % cap,
{
    lemma_mod_multiples_vanish(2 * k, n, cap);
    assert(cap * (2 * k) == 2 * cap * k) by (nonlinear_arith);
}

/// The view of a queue is the sequence of pending values, oldest first:
/// exactly the pushed values that no pop has taken yet, in push order.
impl<T> View for Queue<T> {
    type V = Seq<T>;

    closed spec fn view(&self) -> Seq<T> {
        Seq::new(self.size() as nat, |i: int| self.buffer[self.slot(i)].data.unwrap())
    }
}

/// Lock invariant of the store shared by the two handles: the queue between
/// any two operations is well formed and keeps the capacity it was created
/// with.
pub struct QueuePred {
    pub capacity: int,
}

impl<T> RwLockPredicate<Queue<T>> for QueuePred {
    open spec fn inv(self, q: Queue<T>) -> bool {
        q.wf() && q.capacity() == self.capacity
    }
}

/// Relies on std's `Arc::strong_count`: it returns the number of strong
/// references that currently point at the shared allocation. Each queue
/// allocation starts with exactly two (one per handle), neither handle can be
/// cloned, and dropping a handle releases its reference, so a count below two
/// means the peer handle is gone.
#[verifier::external_body]
fn strong_count<T>(arc: &Arc<T>) -> usize {
    Arc::strong_count(arc)
}

/// Relies on std's `Arc::clone`: the clone is a new strong reference to the
/// same allocation, so it carries the same value.
#[verifier::external_body]
fn share<T>(arc: &Arc<T>) -> (r: Arc<T>)
    ensures
        r == *arc,
{
    Arc::clone(arc)
}

/// The producer handle: the exclusive right to push. Dropping it closes the
/// queue for its receiver, which can still drain the pending values.
pub struct Sender<T> {
    queue: Arc<RwLock<Queue<T>, QueuePred>>,
}

/// The consumer handle: the exclusive right to pop. Dropping it closes the
/// queue for its sender, whose next push is refused.
pub struct Receiver<T> {
    queue: Arc<RwLock<Queue<T>, QueuePred>>,
}

impl<T> Sender<T> {
    /// The shared store this handle pushes into.
    pub closed spec fn store(self) -> RwLock<Queue<T>, QueuePred> {
        *self.queue
    }

    /// Pushes one value into the shared queue, first marking the queue closed
    /// if the receiver no longer exists. A refused value comes back untouched
    /// inside the error.
    pub fn push(&mut self, value: T) -> (r: Result<(), PushError<T>>)
        ensures
            *final(self) == *old(self),
            match r {
                Ok(()) => true,
                Err(PushError::Full(v)) => v == value,
                Err(PushError::Closed(v)) => v == value,
            },
    {
        let receiver_gone = strong_count(&self.queue) < 2;
        let (mut q, handle) = self.queue.acquire_write();
        if receiver_gone {
            q.set_closed();
        }
        let r = q.push(value);
        handle.release_write(q);
        r
    }
}

impl<T> Receiver<T> {
    /// The shared store this handle pops from.
    pub closed spec fn store(self) -> RwLock<Queue<T>, QueuePred> {
        *self.queue
    }

    /// Pops the oldest pending value from the shared queue, first marking the
    /// queue closed if the sender no longer exists. Pending values survive the
    /// sender: `Closed` only appears once the queue is drained.
    pub fn pop(&mut self) -> (r: Result<T, PopError>)
        ensures
            *final(self) == *old(self),
    {
        let sender_gone = strong_count(&self.queue) < 2;
        let (mut q, handle) = self.queue.acquire_write();
        if sender_gone {
            q.set_closed();
        }
        let r = q.pop();
        handle.release_write(q);
        r
    }
}

/// The pending sequence after a run of pushes that all succeed, each one
/// appending its value as [`Queue::push`]'s contract states.
pub open spec fn push_all<T>(pending: Seq<T>, values: Seq<T>) -> Seq<T>
    decreases values.len(),
{
    if values.len() == 0 {
        pending
    } else {
        push_all(pending.push(values[0]), values.skip(1))
    }
}

/// A run of successful pushes appends its values, in order, to what was
/// already pending.
pub proof fn lemma_push_all_appends<T>(pending: Seq<T>, values: Seq<T>)
    ensures
        push_all(pending, values) == pending + values,
    decreases values.len(),
{
    if values.len() == 0 {
        assert(push_all(pending, values) =~= pending + values);
    } else {
        lemma_push_all_appends(pending.push(values[0]), values.skip(1));
        assert(pending.push(values[0]) + values.skip(1) =~= pending + values);
    }
}

/// FIFO order: push the values `vs`, in order, into a queue that starts
/// empty; each push appends ([`Queue::push`]'s contract), so the pending
/// sequence becomes `vs` itself. Each pop returns the first pending value and
/// drops it ([`Queue::pop`]'s contract), so after `k` pops the pending
/// sequence is `vs.skip(k)` and the next pop returns `vs[k]`: values leave in
/// exactly the order they entered, none skipped, none repeated.
pub proof fn lemma_fifo_order<T>(vs: Seq<T>, k: int)
    requires
        0 <= k < vs.len(),
    ensures
        push_all(Seq::<T>::empty(), vs) == vs,
        vs.skip(k)[0] == vs[k],
        vs.skip(k).drop_first() == vs.skip(k + 1),
{
    lemma_push_all_appends(Seq::<T>::empty(), vs);
    assert(Seq::<T>::empty() + vs =~= vs);
    assert(vs.skip(k).drop_first() =~= vs.skip(k + 1));
}

/// Capacity bound: after `capacity` successful pushes into a queue that
/// started empty, `capacity` values are pending, so [`Queue::push`]'s
/// contract refuses the next push with `Full`, handing the offered value
/// back; after one pop exactly one slot is free again, so exactly one more
/// push can succeed.
pub proof fn lemma_capacity_bound<T>(q: Queue<T>, vs: Seq<T>)
    requires
        q.wf(),
        q@ == push_all(Seq::<T>::empty(), vs),
        vs.len() == q.capacity(),
    ensures
        q@.len() == q.capacity(),
        q@.drop_first().len() + 1 == q.capacity(),
{
    lemma_push_all_appends(Seq::<T>::empty(), vs);
    assert(Seq::<T>::empty() + vs =~= vs);
}

/// No double ownership, read side: distinct pending values sit in distinct
/// slots, so no pop can hand the same stored value out twice — and indeed
/// [`Queue::pop`]'s contract removes the value it returns from the pending
/// sequence.
pub proof fn lemma_distinct_slots<T>(q: Queue<T>, i: int, j: int)
    requires
        q.wf(),
        0 <= i < q@.len(),
        0 <= j < q@.len(),
        i != j,
    ensures
        q.slot(i) != q.slot(j),
{
    lemma_offset_injective(q.head as int, q.capacity(), i, j);
}

/// No double ownership, write side: the slot the next push writes is not the
/// slot of any pending value, so a push never overwrites a value that has not
/// been popped yet.
pub proof fn lemma_write_slot_fresh<T>(q: Queue<T>)
    requires
        q.wf(),
        q@.len() < q.capacity(),
    ensures
        forall|i: int| 0 <= i < q@.len() ==> #[trigger] q.slot(i) != q.slot(q@.len() as int),
{
    assert forall|i: int| 0 <= i < q@.len() implies #[trigger] q.slot(i) != q.slot(
        q@.len() as int,
    ) by {
        lemma_offset_injective(q.head as int, q.capacity(), i, q@.len() as int);
    }
}

/// Empty before close: on a freshly created queue — nothing pending and not
/// closed, exactly what [`Queue::new_queue`] guarantees — the only result a
/// pop can have under [`Queue::pop`]'s contract is `Err(PopError::Empty)`,
/// never `Closed`, with the queue unchanged.
pub proof fn lemma_fresh_pop_empty<T>(q: Queue<T>, q2: Queue<T>, r: Result<T, PopError>)
    requires
        q@.len() == 0,
        !q.is_closed(),
        pop_step(q, q2, r),
    ensures
        r == Err::<T, PopError>(PopError::Empty),
        q2 == q,
{
}

/// Drained-and-closed is absorbing: once the queue is closed and nothing is
/// pending, the only result a pop can have under [`Queue::pop`]'s contract is
/// `Err(PopError::Closed)`, and the queue stays drained and closed, so every
/// later pop answers the same way and `Ok` never comes back.
pub proof fn lemma_closed_drained_absorbing<T>(q: Queue<T>, q2: Queue<T>, r: Result<T, PopError>)
    requires
        q@.len() == 0,
        q.is_closed(),
        pop_step(q, q2, r),
    ensures
        r == Err::<T, PopError>(PopError::Closed),
        q2 == q,
        q2@.len() == 0,
        q2.is_closed(),
{
}

/// A contiguous run of integers starting at `lo`: position `i` holds `lo + i`.
pub open spec fn contiguous_run(s: Seq<int>, lo: int) -> bool {
    forall|i: int| 0 <= i < s.len() ==> #[trigger] s[i] == lo + i
}

/// Wraparound stress, step law: while the pending sequence is exactly the run
/// `lo, lo + 1, ...`, pushing the next integer (which [`Queue::push`]'s
/// contract appends) keeps the run contiguous, and a successful pop (which
/// [`Queue::pop`]'s contract makes return the first pending value and drop
/// it) returns exactly `lo` and leaves the run starting at `lo + 1`. So a
/// consumer that pops increasing integers observes each one exactly once, in
/// order, with no gap and no repeat, at every step of the interleaving.
pub proof fn lemma_wraparound_step(s: Seq<int>, lo: int)
    requires
        contiguous_run(s, lo),
    ensures
        contiguous_run(s.push(lo + s.len()), lo),
        s.len() > 0 ==> s[0] == lo && contiguous_run(s.drop_first(), lo + 1),
{
    assert forall|i: int| 0 <= i < s.push(lo + s.len()).len() implies #[trigger] s.push(
        lo + s.len(),
    )[i] == lo + i by {
        if i < s.len() {
            assert(s[i] == lo + i);
        }
    }
    if s.len() > 0 {
        assert forall|i: int| 0 <= i < s.drop_first().len() implies #[trigger] s.drop_first()[i]
            == lo + 1 + i by {
            assert(s[i + 1] == lo + i + 1);
        }
    }
}

} // verus!
