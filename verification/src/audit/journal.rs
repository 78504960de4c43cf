//! [`Journal`]: a fixed-capacity ring of the most recently recorded [`Event`]s.
//!
//! The ring never refuses a write: once full it overwrites the oldest slot and counts the
//! eviction in [`Journal::dropped`], which never decreases. Sequence numbers start at 1, strictly
//! increase, and keep climbing however often the ring wraps.

use vstd::prelude::*;

use crate::audit::action::Action;
use crate::audit::event::Event;

verus! {

fn empty_event() -> (e: Event)
    ensures
        e.seq == 0,
{
    Event { seq: 0, actor: 0, action: Action::Insert, kind: 0, rights: 0, detail: 0 }
}

/// A ring of the most recent `N` audit events.
pub struct Journal<const N: usize> {
    events: Vec<Event>,
    /// Index of the oldest retained event.
    head: usize,
    /// How many events are currently retained (never more than `N`).
    len: usize,
    /// The sequence number the next `record` will assign.
    next_seq: u64,
    /// Total events evicted over this journal's lifetime.
    dropped: u64,
}

impl<const N: usize> Journal<N> {
    /// The retained events, oldest first.
    pub closed spec fn view(&self) -> Seq<Event> {
        Seq::new(self.len as nat, |i: int| self.events@[(self.head + i) % (N as int)])
    }

    /// The sequence number the next `record` will assign.
    pub closed spec fn next_seq_spec(&self) -> u64 {
        self.next_seq
    }

    /// Events evicted so far.
    pub closed spec fn dropped_spec(&self) -> u64 {
        self.dropped
    }

    /// The ring is consistent: the retained events carry the most recent sequence numbers,
    /// consecutively, and every event ever recorded is either retained or counted as dropped.
    pub closed spec fn wf(&self) -> bool {
        &&& self.events@.len() == N
        &&& N <= usize::MAX / 2
        &&& self.len <= N
        &&& (N > 0 ==> self.head < N)
        &&& (N == 0 ==> self.head == 0)
        &&& self.next_seq >= 1
        &&& self.dropped + self.len + 1 == self.next_seq
        &&& (self.dropped > 0 ==> self.len == N)
        &&& forall|i: int|
            0 <= i < self.len ==> #[trigger] self.events@[(self.head + i) % (N as int)].seq
                == self.next_seq - self.len + i
    }

    /// An empty journal with room for `N` events.
    pub fn new() -> (j: Self)
        requires
            N <= usize::MAX / 2,
        ensures
            j.wf(),
            j@ == Seq::<Event>::empty(),
            j.next_seq_spec() == 1,
            j.dropped_spec() == 0,
    {
        let mut events: Vec<Event> = Vec::new();
        let mut i: usize = 0;
        while i < N
            invariant
                i <= N,
                events@.len() == i,
            decreases N - i,
        {
            events.push(empty_event());
            i = i + 1;
        }
        let j = Journal { events, head: 0, len: 0, next_seq: 1, dropped: 0 };
        assert(j@ =~= Seq::<Event>::empty());
        j
    }

    /// How many events this journal can hold at once.
    pub fn capacity(&self) -> (c: usize)
        ensures
            c == N,
    {
        N
    }

    /// How many events are currently retained.
    pub fn len(&self) -> (l: usize)
        requires
            self.wf(),
        ensures
            l == self@.len(),
    {
        self.len
    }

    /// Whether nothing is retained.
    pub fn is_empty(&self) -> (b: bool)
        requires
            self.wf(),
        ensures
            b == (self@.len() == 0),
    {
        self.len == 0
    }

    /// How many events have been evicted to make room for a newer one, over this journal's
    /// entire lifetime.
    pub fn dropped(&self) -> (d: u64)
        ensures
            d == self.dropped_spec(),
    {
        self.dropped
    }

    /// The most recently assigned sequence number, or `0` if nothing has been recorded yet.
    pub fn latest_seq(&self) -> (s: u64)
        requires
            self.wf(),
        ensures
            self@.len() == 0 ==> s == 0,
            self@.len() > 0 ==> s == self.next_seq_spec() - 1 && s == self@.last().seq,
    {
        if self.len == 0 {
            0
        } else {
            assert(self.events@[(self.head + (self.len - 1)) % (N as int)].seq == self.next_seq
                - 1);
            self.next_seq - 1
        }
    }

    /// Records a new event and returns the sequence number assigned to it. Always succeeds:
    /// when the ring is already full this evicts the oldest retained event and counts it.
    pub fn record(&mut self, actor: u64, action: Action, kind: u8, rights: u32, detail: u64) -> (seq:
        u64)
        requires
            old(self).wf(),
            N > 0,
            old(self).next_seq_spec() < u64::MAX,
        ensures
            final(self).wf(),
            seq == old(self).next_seq_spec(),
            final(self).next_seq_spec() == seq + 1,
            ({
                let e = Event { seq, actor, action, kind, rights, detail };
                if old(self)@.len() < N {
                    &&& final(self)@ == old(self)@.push(e)
                    &&& final(self).dropped_spec() == old(self).dropped_spec()
                } else {
                    &&& final(self)@ == old(self)@.drop_first().push(e)
                    &&& final(self).dropped_spec() == old(self).dropped_spec() + 1
                }
            }),
    {
        let ghost old_view = self@;
        let seq = self.next_seq;
        self.next_seq = self.next_seq + 1;
        let event = Event { seq, actor, action, kind, rights, detail };
        if self.len == N {
            let h = self.head;
            self.events.set(h, event);
            self.head = (self.head + 1) % N;
            self.dropped = self.dropped + 1;
            proof {
                assert forall|i: int| 0 <= i < self.len implies #[trigger] self.events@[(self.head
                    + i) % (N as int)].seq == self.next_seq - self.len + i by {
                    lemma_ring_index::<N>(h as int, i);
                    if i < N - 1 {
                        lemma_ring_distinct::<N>(h as int, i + 1, 0);
                        assert(old(self).events@[(old(self).head + (i + 1)) % (N as int)].seq
                            == old(self).next_seq - old(self).len + (i + 1));
                        assert(self.events@[(self.head + i) % (N as int)] == old(self).events@[(h
                            + (i + 1)) % (N as int)]);
                    } else {
                        assert((self.head + i) % (N as int) == h);
                    }
                }
                assert forall|i: int| 0 <= i < self@.len() implies self@[i] == old_view.drop_first().push(
                    event,
                )[i] by {
                    lemma_ring_index::<N>(h as int, i);
                    if i < N - 1 {
                        lemma_ring_distinct::<N>(h as int, i + 1, 0);
                        assert(self.events@[(self.head + i) % (N as int)] == old(self).events@[(h
                            + (i + 1)) % (N as int)]);
                    } else {
                        assert((self.head + i) % (N as int) == h);
                    }
                }
                assert(self@ =~= old_view.drop_first().push(event));
            }
        } else {
            let tail = (self.head + self.len) % N;
            self.events.set(tail, event);
            self.len = self.len + 1;
            proof {
                assert forall|i: int| 0 <= i < self.len implies #[trigger] self.events@[(self.head
                    + i) % (N as int)].seq == self.next_seq - self.len + i by {
                    if i < self.len - 1 {
                        lemma_ring_distinct::<N>(self.head as int, i, (self.len - 1) as int);
                        assert(self.events@[(self.head + i) % (N as int)] == old(self).events@[(
                        self.head + i) % (N as int)]);
                    }
                }
                assert forall|i: int| 0 <= i < self@.len() implies self@[i] == old_view.push(
                    event,
                )[i] by {
                    if i < self.len - 1 {
                        lemma_ring_distinct::<N>(self.head as int, i, (self.len - 1) as int);
                    }
                }
                assert(self@ =~= old_view.push(event));
            }
        }
        seq
    }

    /// The event at `index`, where `0` is the oldest retained event; `None` past `len()`.
    pub fn get(&self, index: usize) -> (r: Option<Event>)
        requires
            self.wf(),
        ensures
            index < self@.len() ==> r == Some(self@[index as int]),
            index >= self@.len() ==> r is None,
    {
        if index >= self.len {
            return None;
        }
        Some(self.events[(self.head + index) % N])
    }

    /// All retained events, oldest to newest.
    pub fn iter(&self) -> (v: Vec<Event>)
        requires
            self.wf(),
        ensures
            v@ == self@,
    {
        let mut v: Vec<Event> = Vec::new();
        let mut i: usize = 0;
        while i < self.len
            invariant
                self.wf(),
                i <= self.len,
                v@ == self@.take(i as int),
            decreases self.len - i,
        {
            v.push(self.events[(self.head + i) % N]);
            i = i + 1;
            assert(v@ =~= self@.take(i as int));
        }
        assert(self@.take(self.len as int) =~= self@);
        v
    }

    /// Every retained event with `seq` strictly greater than `seq`, oldest to newest. If `seq`
    /// names an event already evicted, that is everything retained.
    pub fn since(&self, seq: u64) -> (v: Vec<Event>)
        requires
            self.wf(),
        ensures
            v@ == self@.filter(|e: Event| e.seq > seq),
    {
        let mut v: Vec<Event> = Vec::new();
        let mut i: usize = 0;
        while i < self.len
            invariant
                self.wf(),
                i <= self.len,
                v@ == self@.take(i as int).filter(|e: Event| e.seq > seq),
            decreases self.len - i,
        {
            let e = self.events[(self.head + i) % N];
            proof {
                reveal(Seq::filter);
                assert(self@.take(i + 1).drop_last() =~= self@.take(i as int));
            }
            if e.seq > seq {
                v.push(e);
            }
            i = i + 1;
        }
        assert(self@.take(self.len as int) =~= self@);
        v
    }
}

proof fn lemma_ring_index<const N: usize>(h: int, i: int)
    requires
        0 <= h < N,
        0 <= i < N,
    ensures
        i < N - 1 ==> ((h + 1) % (N as int) + i) % (N as int) == (h + i + 1) % (N as int),
        i == N - 1 ==> ((h + 1) % (N as int) + i) % (N as int) == h,
{
    let n = N as int;
    if h + 1 < n {
        assert((h + 1) % n == h + 1) by (nonlinear_arith)
            requires
                0 <= h + 1 < n,
        ;
    } else {
        assert((h + 1) % n == 0) by (nonlinear_arith)
            requires
                h + 1 == n,
                n > 0,
        ;
        assert((i) % n == i) by (nonlinear_arith)
            requires
                0 <= i < n,
        ;
        if i < n - 1 {
            assert((h + i + 1) % n == i) by (nonlinear_arith)
                requires
                    h + 1 == n,
                    0 <= i < n - 1,
            ;
        }
    }
    if h + 1 < n && i == n - 1 {
        assert((h + 1 + i) % n == h) by (nonlinear_arith)
            requires
                h + 1 + i == n + h,
                0 <= h < n,
        ;
    }
}

proof fn lemma_ring_distinct<const N: usize>(h: int, i: int, j: int)
    requires
        0 <= h < N,
        0 <= i < N,
        0 <= j < N,
        i != j,
    ensures
        (h + i) % (N as int) != (h + j) % (N as int),
        (h + 0) % (N as int) == h,
{
    let n = N as int;
    assert((h + 0) % n == h) by (nonlinear_arith)
        requires
            0 <= h < n,
    ;
    assert((h + i) % n != (h + j) % n) by (nonlinear_arith)
        requires
            0 <= h < n,
            0 <= i < n,
            0 <= j < n,
            i != j,
    ;
}

/// Sequence numbers are strictly increasing through the ring, and the newest retained event
/// has the latest sequence number ever assigned.
pub proof fn journal_sequence_is_strictly_increasing<const N: usize>(j: Journal<N>, a: int, b: int)
    requires
        j.wf(),
        0 <= a < b < j@.len(),
    ensures
        j@[a].seq < j@[b].seq,
        j@.last().seq == j.next_seq_spec() - 1,
        j.dropped_spec() + j@.len() == j.next_seq_spec() - 1,
{
    assert(j.events@[(j.head + a) % (N as int)].seq == j.next_seq - j.len + a);
    assert(j.events@[(j.head + b) % (N as int)].seq == j.next_seq - j.len + b);
    let l = j.len - 1;
    assert(j.events@[(j.head + l) % (N as int)].seq == j.next_seq - j.len + l);
}

/// What a journal's counters say of it: it never holds more than `N` events, it counts from 1,
/// every event recorded so far is either retained or dropped, and it only drops once full.
pub proof fn journal_counts<const N: usize>(j: Journal<N>)
    requires
        j.wf(),
    ensures
        j@.len() <= N,
        j.next_seq_spec() >= 1,
        j.dropped_spec() + j@.len() + 1 == j.next_seq_spec(),
        j.dropped_spec() > 0 ==> j@.len() == N,
{
}

/// A journal that has recorded `k` events, its next sequence number being `k + 1`, retains the
/// newest `min(k, N)` of them, oldest first and consecutively numbered, and has dropped the
/// other `k - min(k, N)`.
pub proof fn journal_keeps_the_newest<const N: usize>(j: Journal<N>)
    requires
        j.wf(),
    ensures
        ({
            let k = j.next_seq_spec() - 1;
            &&& j@.len() == (if k < N {
                k
            } else {
                N as int
            })
            &&& j.dropped_spec() == k - j@.len()
            &&& forall|i: int| 0 <= i < j@.len() ==> #[trigger] j@[i].seq == k - j@.len() + 1 + i
        }),
{
    assert forall|i: int| 0 <= i < j@.len() implies #[trigger] j@[i].seq == j.next_seq_spec() - 1
        - j@.len() + 1 + i by {
        assert(j.events@[(j.head + i) % (N as int)].seq == j.next_seq - j.len + i);
    }
}

/// Retained events are numbered consecutively after the dropped ones: the `i`th oldest carries
/// sequence number `dropped + 1 + i`.
pub proof fn journal_sequence_is_consecutive<const N: usize>(j: Journal<N>, i: int)
    requires
        j.wf(),
        0 <= i < j@.len(),
    ensures
        j@[i].seq == j.dropped_spec() + 1 + i,
{
    assert(j.events@[(j.head + i) % (N as int)].seq == j.next_seq - j.len + i);
}

} // verus!
