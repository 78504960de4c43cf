//! Where a [`Message`] waits between send and receive: a genuine ring buffer of fixed capacity,
//! tracking a head and a count, so every push and pop touches exactly one slot.

use vstd::prelude::*;

use crate::ipc::error::IpcError;
use crate::ipc::message::{Header, Message};

verus! {

fn empty_slot() -> Message {
    Message { header: Header { interface: 0, method: 0, len: 0 }, payload: [0u8; 64] }
}

/// A fixed-capacity FIFO of messages.
pub struct MessageQueue<const N: usize> {
    slots: Vec<Message>,
    /// Index of the next message `pop` will return.
    head: usize,
    /// How many messages are queued. The next `push` writes to `(head + count) % N`.
    count: usize,
}

impl<const N: usize> MessageQueue<N> {
    /// The queued messages, oldest first.
    pub closed spec fn view(&self) -> Seq<Message> {
        Seq::new(self.count as nat, |i: int| self.slots@[(self.head + i) % (N as int)])
    }

    /// The ring is consistent.
    pub closed spec fn wf(&self) -> bool {
        &&& self.slots@.len() == N
        &&& N <= usize::MAX / 2
        &&& self.count <= N
        &&& (N > 0 ==> self.head < N)
    }

    /// An empty queue with room for `N` messages.
    pub fn new() -> (q: Self)
        requires
            N <= usize::MAX / 2,
        ensures
            q.wf(),
            q@ == Seq::<Message>::empty(),
    {
        let mut slots: Vec<Message> = Vec::new();
        let mut i: usize = 0;
        while i < N
            invariant
                i <= N,
                slots@.len() == i,
            decreases N - i,
        {
            slots.push(empty_slot());
            i = i + 1;
        }
        let q = MessageQueue { slots, head: 0, count: 0 };
        assert(q@ =~= Seq::<Message>::empty());
        q
    }

    /// A consistent queue never holds more than `N` messages.
    pub proof fn lemma_len_bounded(&self)
        requires
            self.wf(),
        ensures
            self@.len() <= N,
    {
    }

    /// How many messages this queue can hold at once.
    pub fn capacity(&self) -> (c: usize)
        ensures
            c == N,
    {
        N
    }

    /// How many messages are currently queued.
    pub fn len(&self) -> (l: usize)
        ensures
            l == self@.len(),
    {
        self.count
    }

    /// Whether nothing is queued.
    pub fn is_empty(&self) -> (b: bool)
        ensures
            b == (self@.len() == 0),
    {
        self.count == 0
    }

    /// Whether the queue holds `N` messages.
    pub fn is_full(&self) -> (b: bool)
        ensures
            b == (self@.len() == N),
    {
        self.count == N
    }

    /// Enqueues a message at the back. Fails `QueueFull`, disturbing nothing, when the queue
    /// already holds `N` messages.
    pub fn push(&mut self, message: Message) -> (r: Result<(), IpcError>)
        requires
            old(self).wf(),
        ensures
            final(self).wf(),
            old(self)@.len() == N ==> r == Err::<(), IpcError>(IpcError::QueueFull)
                && final(self)@ == old(self)@,
            old(self)@.len() < N ==> r is Ok && final(self)@ == old(self)@.push(message),
    {
        if self.is_full() {
            return Err(IpcError::QueueFull);
        }
        let ghost old_view = self@;
        let tail = (self.head + self.count) % N;
        self.slots.set(tail, message);
        self.count = self.count + 1;
        proof {
            assert forall|i: int| 0 <= i < self@.len() implies self@[i] == old_view.push(
                message,
            )[i] by {
                if i < self.count - 1 {
                    lemma_ring_slots_distinct(self.head as int, i, self.count - 1, N as int);
                }
            }
            assert(self@ =~= old_view.push(message));
        }
        Ok(())
    }

    /// Dequeues the oldest message, or `None` if the queue is empty; an empty queue stays usable.
    pub fn pop(&mut self) -> (r: Option<Message>)
        requires
            old(self).wf(),
        ensures
            final(self).wf(),
            old(self)@.len() == 0 ==> r is None && final(self)@ == old(self)@,
            old(self)@.len() > 0 ==> r == Some(old(self)@[0])
                && final(self)@ == old(self)@.drop_first(),
    {
        if self.is_empty() {
            return None;
        }
        let ghost old_view = self@;
        let message = self.slots[self.head];
        proof {
            lemma_ring_slots_distinct(self.head as int, 0, 0, N as int);
        }
        self.head = (self.head + 1) % N;
        self.count = self.count - 1;
        proof {
            assert forall|i: int| 0 <= i < self@.len() implies self@[i] == old_view.drop_first()[i] by {
                lemma_ring_step(old(self).head as int, i, N as int);
            }
            assert(self@ =~= old_view.drop_first());
        }
        Some(message)
    }
}

proof fn lemma_ring_slots_distinct(h: int, i: int, j: int, n: int)
    requires
        0 <= h < n,
        0 <= i < n,
        0 <= j < n,
    ensures
        i != j ==> (h + i) % n != (h + j) % n,
        (h + 0) % n == h,
{
    assert((h + 0) % n == h) by (nonlinear_arith)
        requires
            0 <= h < n,
    ;
    if i != j {
        assert((h + i) % n != (h + j) % n) by (nonlinear_arith)
            requires
                0 <= h < n,
                0 <= i < n,
                0 <= j < n,
                i != j,
        ;
    }
}

proof fn lemma_ring_step(h: int, i: int, n: int)
    requires
        0 <= h < n,
        0 <= i,
    ensures
        ((h + 1) % n + i) % n == (h + (i + 1)) % n,
{
    assert(((h + 1) % n + i) % n == (h + (i + 1)) % n) by (nonlinear_arith)
        requires
            0 <= h < n,
            0 <= i,
    ;
}

/// First in, first out: pushing a message onto a queue with room and then popping everything
/// before it hands that message back last, and a push refused for a full queue changes nothing.
pub proof fn queue_is_fifo(before: Seq<Message>, m: Message)
    ensures
        before.push(m).last() == m,
        before.push(m).subrange(0, before.len() as int) == before,
{
    assert(before.push(m).subrange(0, before.len() as int) =~= before);
}

} // verus!
