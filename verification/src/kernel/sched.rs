//! Threads and a round-robin scheduler.
//!
//! Round-robin because it is the policy whose behaviour you can predict by reading it. The
//! timer marks the running thread for replacement; `yield_now` decides who runs next and the
//! caller performs the switch. A table with no threads is a scheduler that has not been
//! initialised yet.

use vstd::prelude::*;

use crate::cap::handle::Handle;
use crate::cap::object::Object;
use crate::cap::rights::Rights;
use crate::cap::space::{CapError, CapSlot, CapSpace, NO_LINK, fresh, is_free, lookup};
use crate::kernel::context::{Context, new_thread_context, zero_context};

verus! {

/// Capability slots per thread.
pub const CAP_SLOTS: usize = 16;

/// Exit code reported for a thread the hardware stopped, as opposed to one that chose to exit.
pub const EXIT_FAULTED: u64 = 0xFFFF_FFFF_FFFF_FFFE;

/// Whether a thread may be scheduled.
#[derive(Debug, Clone, Copy, PartialEq, Eq, Structural)]
pub enum State {
    /// Runnable or running.
    Ready,
    /// Stopped for good. Kept in the table so its id stays meaningful.
    Finished,
}

/// One thread: its id, its name, whether it can run, its saved registers and everything it is
/// allowed to do.
pub struct Thread {
    pub id: u64,
    pub name: &'static str,
    pub state: State,
    pub context: Context,
    caps: CapSpace<CAP_SLOTS>,
}

/// The capability space a new thread starts with: every slot null, with no rights, generation
/// zero and no parent.
pub open spec fn empty_caps() -> Seq<CapSlot> {
    Seq::new(CAP_SLOTS as nat, |i: int| fresh(Object::Null, Rights(0), 0, NO_LINK))
}

/// Whether `idx` is the thread round-robin picks after `cur` among `n` threads: the first
/// ready one at offset `1..=n` from `cur`, wrapping.
pub open spec fn is_next_ready(ready: spec_fn(int) -> bool, n: int, cur: int, idx: int) -> bool {
    exists|off: int|
        1 <= off <= n && idx == (cur + off) % n && #[trigger] ready((cur + off) % n) && forall|o: int|
            1 <= o < off ==> !#[trigger] ready((cur + o) % n)
}

/// Whether no thread is ready.
pub open spec fn none_ready(ready: spec_fn(int) -> bool, n: int) -> bool {
    forall|i: int| 0 <= i < n ==> !#[trigger] ready(i)
}

/// The thread table and the counters the kernel keeps beside it.
pub struct Scheduler {
    threads: Vec<Thread>,
    current: usize,
    next_id: u64,
    need_resched: bool,
    switches: u64,
    exit_code: u64,
    has_exited: bool,
}

impl Scheduler {
    /// Each thread's id and state, in table order. Empty before `init`.
    pub closed spec fn view(&self) -> Seq<(u64, State)> {
        self.threads@.map_values(|t: Thread| (t.id, t.state))
    }

    /// Which thread is on the CPU.
    pub closed spec fn current_index(&self) -> int {
        self.current as int
    }

    /// The id the next thread gets.
    pub closed spec fn next_id_spec(&self) -> u64 {
        self.next_id
    }

    /// Whether the timer has asked for a switch.
    pub closed spec fn resched_spec(&self) -> bool {
        self.need_resched
    }

    /// How many switches have happened.
    pub closed spec fn switches_spec(&self) -> u64 {
        self.switches
    }

    /// The code the last retired thread stopped with, if one has retired since the last
    /// `clear_exit`.
    pub closed spec fn exit_spec(&self) -> Option<u64> {
        if self.has_exited {
            Some(self.exit_code)
        } else {
            None
        }
    }

    /// Each thread's capability space, in table order.
    pub closed spec fn caps_view(&self) -> Seq<Seq<CapSlot>> {
        self.threads@.map_values(|t: Thread| t.caps@)
    }

    /// Each thread's saved registers, in table order.
    pub closed spec fn contexts_view(&self) -> Seq<Context> {
        self.threads@.map_values(|t: Thread| t.context)
    }

    /// Each thread's name, in table order.
    pub closed spec fn names_view(&self) -> Seq<&'static str> {
        self.threads@.map_values(|t: Thread| t.name)
    }

    /// The table is either empty or has a current thread, and every capability space is
    /// consistent.
    pub closed spec fn wf(&self) -> bool {
        &&& (self.threads@.len() > 0 ==> self.current < self.threads@.len())
        &&& self.threads@.len() <= usize::MAX / 2
        &&& forall|i: int| 0 <= i < self.threads@.len() ==> #[trigger] self.threads@[i].caps.wf()
    }

    /// A scheduler with no threads yet, every counter at zero.
    pub fn new() -> (s: Scheduler)
        ensures
            s.wf(),
            s@.len() == 0,
            s.next_id_spec() == 0,
            !s.resched_spec(),
            s.switches_spec() == 0,
            s.exit_spec() is None,
    {
        let s = Scheduler {
            threads: Vec::new(),
            current: 0,
            next_id: 0,
            need_resched: false,
            switches: 0,
            exit_code: 0,
            has_exited: false,
        };
        assert(s@ =~= Seq::<(u64, State)>::empty());
        s
    }

    /// Adopts the code already running as the first thread, "boot": ready, current, with the
    /// next id and an empty capability space. Its registers are recorded by the first switch.
    pub fn init(&mut self)
        requires
            old(self).wf(),
        ensures
            final(self).wf(),
            final(self)@ == seq![(old(self).next_id_spec(), State::Ready)],
            final(self).current_index() == 0,
            final(self).next_id_spec() == vstd::wrapping::u64_specs::wrapping_add(
                old(self).next_id_spec(),
                1,
            ),
            final(self).caps_view()[0].len() == CAP_SLOTS,
            forall|i: int| 0 <= i < CAP_SLOTS ==> #[trigger] final(self).caps_view()[0][i].object
                == crate::cap::object::Object::Null,
            final(self).resched_spec() == old(self).resched_spec(),
            final(self).switches_spec() == old(self).switches_spec(),
            final(self).exit_spec() == old(self).exit_spec(),
    {
        let id = self.next_id;
        self.next_id = self.next_id.wrapping_add(1);
        let caps = CapSpace::new();
        let boot = Thread { id, name: "boot", state: State::Ready, context: Context::zeroed(), caps };
        let mut threads = Vec::new();
        threads.push(boot);
        self.threads = threads;
        self.current = 0;
        proof {
            assert(self@ =~= seq![(id, State::Ready)]);
            assert(self.caps_view()[0] == caps@);
        }
    }

    /// Creates a runnable thread whose first switch enters `entry(arg)` through `trampoline` on
    /// the stack ending at `stack_top`, and returns its id. Before `init` the id is used up but
    /// no thread is made.
    pub fn spawn(&mut self, name: &'static str, entry: u64, arg: u64, stack_top: u64, trampoline: u64) -> (id: u64)
        requires
            old(self).wf(),
            old(self)@.len() < usize::MAX / 2,
        ensures
            final(self).wf(),
            id == old(self).next_id_spec(),
            final(self).next_id_spec() == vstd::wrapping::u64_specs::wrapping_add(id, 1),
            old(self)@.len() == 0 ==> {
                &&& final(self)@ == old(self)@
                &&& final(self).caps_view() == old(self).caps_view()
                &&& final(self).contexts_view() == old(self).contexts_view()
                &&& final(self).names_view() == old(self).names_view()
            },
            old(self)@.len() > 0 ==> {
                &&& final(self)@ == old(self)@.push((id, State::Ready))
                &&& final(self).caps_view() == old(self).caps_view().push(empty_caps())
                &&& final(self).contexts_view() == old(self).contexts_view().push(
                    new_thread_context(entry, arg, stack_top, trampoline),
                )
                &&& final(self).names_view() == old(self).names_view().push(name)
            },
            final(self).current_index() == old(self).current_index(),
            final(self).resched_spec() == old(self).resched_spec(),
            final(self).switches_spec() == old(self).switches_spec(),
            final(self).exit_spec() == old(self).exit_spec(),
    {
        let id = self.next_id;
        self.next_id = self.next_id.wrapping_add(1);
        if self.threads.len() > 0 {
            let ghost before = self.threads@;
            let caps = CapSpace::new();
            assert(caps@ =~= empty_caps());
            let thread = Thread {
                id,
                name,
                state: State::Ready,
                context: Context::for_new_thread(entry, arg, stack_top, trampoline),
                caps,
            };
            self.threads.push(thread);
            proof {
                assert(self.caps_view() =~= before.map_values(|t: Thread| t.caps@).push(caps@));
                assert(self.contexts_view() =~= before.map_values(|t: Thread| t.context).push(
                    thread.context,
                ));
                assert(self.names_view() =~= before.map_values(|t: Thread| t.name).push(name));
                assert(self@ =~= before.map_values(|t: Thread| (t.id, t.state)).push(
                    (id, State::Ready),
                ));
                assert forall|i: int| 0 <= i < self.threads@.len() implies #[trigger] self.threads@[i].caps.wf() by {
                    if i < before.len() {
                        assert(self.threads@[i] == before[i]);
                    }
                }
            }
        }
        id
    }

    /// Marks the running thread for replacement. Called from the timer interrupt.
    pub fn request_reschedule(&mut self)
        ensures
            final(self).resched_spec(),
            final(self)@ == old(self)@,
            final(self).current_index() == old(self).current_index(),
            final(self).caps_view() == old(self).caps_view(),
            final(self).next_id_spec() == old(self).next_id_spec(),
            final(self).switches_spec() == old(self).switches_spec(),
            final(self).exit_spec() == old(self).exit_spec(),
            old(self).wf() ==> final(self).wf(),
    {
        self.need_resched = true;
    }

    /// Whether the timer has asked for a switch since the last one.
    pub fn reschedule_requested(&self) -> (b: bool)
        ensures
            b == self.resched_spec(),
    {
        self.need_resched
    }

    /// How many switches `yield_now` has made.
    pub fn switches(&self) -> (n: u64)
        ensures
            n == self.switches_spec(),
    {
        self.switches
    }

    /// The id of the thread on the CPU, or 0 before `init`.
    pub fn current_id(&self) -> (id: u64)
        requires
            self.wf(),
        ensures
            self@.len() == 0 ==> id == 0,
            self@.len() > 0 ==> id == self@[self.current_index()].0,
    {
        if self.threads.len() == 0 {
            0
        } else {
            self.threads[self.current].id
        }
    }

    /// Round-robin: the first ready thread after the current one, wrapping; the current one
    /// itself comes last. `None` when nothing is ready.
    fn next_ready(&self) -> (r: Option<usize>)
        requires
            self.wf(),
            self@.len() > 0,
        ensures
            ({
                let ready = |i: int| self@[i].1 == State::Ready;
                match r {
                    Some(idx) => is_next_ready(ready, self@.len() as int, self.current_index(), idx as int),
                    None => none_ready(ready, self@.len() as int),
                }
            }),
    {
        let n = self.threads.len();
        let ghost ready = |i: int| self@[i].1 == State::Ready;
        let mut offset: usize = 1;
        while offset <= n
            invariant
                1 <= offset <= n + 1,
                n == self@.len(),
                n > 0,
                self.current < n,
                n <= usize::MAX / 2,
                ready == (|i: int| self@[i].1 == State::Ready),
                forall|o: int| 1 <= o < offset ==> !#[trigger] ready((self.current + o) % (n as int)),
            decreases n + 1 - offset,
        {
            let i = (self.current + offset) % n;
            if self.threads[i].state == State::Ready {
                proof {
                    assert(ready((self.current + offset) % (n as int)));
                }
                return Some(i);
            }
            offset = offset + 1;
        }
        proof {
            assert forall|i: int| 0 <= i < n implies !#[trigger] ready(i) by {
                let o = if i > self.current { i - self.current } else { i + n - self.current };
                assert(1 <= o <= n);
                assert((self.current + o) % (n as int) == i) by (nonlinear_arith)
                    requires
                        0 <= i < n,
                        0 <= self.current < n,
                        o == (if i > self.current { i - self.current } else { i + n - self.current }),
                ;
                assert(!ready((self.current + o) % (n as int)));
            }
        }
        None
    }

    /// Hands the CPU to the next ready thread: clears the reschedule request and, when a
    /// different thread is ready, makes it current, counts the switch, and returns the table
    /// positions to switch from and to. `None` — nothing to do — before `init`, when nothing is
    /// ready, or when the current thread is the only one ready.
    pub fn yield_now(&mut self) -> (r: Option<(usize, usize)>)
        requires
            old(self).wf(),
        ensures
            final(self).wf(),
            !final(self).resched_spec(),
            final(self)@ == old(self)@,
            final(self).caps_view() == old(self).caps_view(),
            final(self).next_id_spec() == old(self).next_id_spec(),
            final(self).exit_spec() == old(self).exit_spec(),
            ({
                let n = old(self)@.len() as int;
                let cur = old(self).current_index();
                let ready = |i: int| old(self)@[i].1 == State::Ready;
                match r {
                    Some((from, to)) => {
                        &&& n > 0
                        &&& from == cur
                        &&& is_next_ready(ready, n, cur, to as int)
                        &&& to != cur
                        &&& final(self).current_index() == to
                        &&& final(self).switches_spec() == vstd::wrapping::u64_specs::wrapping_add(
                            old(self).switches_spec(),
                            1,
                        )
                    },
                    None => {
                        &&& (n == 0 || none_ready(ready, n) || is_next_ready(ready, n, cur, cur))
                        &&& final(self).current_index() == cur
                        &&& final(self).switches_spec() == old(self).switches_spec()
                    },
                }
            }),
    {
        self.need_resched = false;
        if self.threads.len() == 0 {
            return None;
        }
        let next = match self.next_ready() {
            Some(i) => i,
            None => return None,
        };
        if next == self.current {
            return None;
        }
        let from = self.current;
        self.current = next;
        self.switches = self.switches.wrapping_add(1);
        Some((from, next))
    }

    /// Stops the running thread for good and records why. The caller then switches away and
    /// never returns to it.
    pub fn retire_current(&mut self, code: u64)
        requires
            old(self).wf(),
        ensures
            final(self).wf(),
            final(self).exit_spec() == Some(code),
            old(self)@.len() == 0 ==> final(self)@ == old(self)@,
            old(self)@.len() > 0 ==> final(self)@ == old(self)@.update(
                old(self).current_index(),
                (old(self)@[old(self).current_index()].0, State::Finished),
            ),
            final(self).current_index() == old(self).current_index(),
            final(self).caps_view() == old(self).caps_view(),
            final(self).next_id_spec() == old(self).next_id_spec(),
            final(self).resched_spec() == old(self).resched_spec(),
            final(self).switches_spec() == old(self).switches_spec(),
    {
        self.exit_code = code;
        self.has_exited = true;
        if self.threads.len() > 0 {
            let ghost before = self.threads@;
            let cur = self.current;
            self.threads[cur].state = State::Finished;
            proof {
                assert(self.threads@ == before.update(cur as int, self.threads@[cur as int]));
                assert(self@ =~= before.map_values(|t: Thread| (t.id, t.state)).update(
                    cur as int,
                    (before[cur as int].id, State::Finished),
                ));
                assert(self.caps_view() =~= before.map_values(|t: Thread| t.caps@));
                assert forall|i: int| 0 <= i < self.threads@.len() implies #[trigger] self.threads@[i].caps.wf() by {
                    if i != cur {
                        assert(self.threads@[i] == before[i]);
                    }
                }
            }
        }
    }

    /// The code the last thread to retire stopped with, if any has since the last
    /// `clear_exit`.
    pub fn exit_code(&self) -> (r: Option<u64>)
        ensures
            r == self.exit_spec(),
    {
        if self.has_exited {
            Some(self.exit_code)
        } else {
            None
        }
    }

    /// Forgets the last exit code, so a later retirement can be waited for distinctly.
    pub fn clear_exit(&mut self)
        ensures
            final(self).exit_spec() is None,
            final(self)@ == old(self)@,
            final(self).current_index() == old(self).current_index(),
            final(self).caps_view() == old(self).caps_view(),
            final(self).next_id_spec() == old(self).next_id_spec(),
            final(self).resched_spec() == old(self).resched_spec(),
            final(self).switches_spec() == old(self).switches_spec(),
            old(self).wf() ==> final(self).wf(),
    {
        self.has_exited = false;
    }

    /// How many threads exist, and how many of those are ready.
    pub fn census(&self) -> (r: (usize, usize))
        requires
            self.wf(),
        ensures
            r.0 == self@.len(),
            r.1 == self@.filter(|t: (u64, State)| t.1 == State::Ready).len(),
    {
        let mut ready: usize = 0;
        let mut i: usize = 0;
        while i < self.threads.len()
            invariant
                i <= self@.len(),
                ready == self@.subrange(0, i as int).filter(|t: (u64, State)| t.1 == State::Ready).len(),
                ready <= i,
            decreases self@.len() - i,
        {
            proof {
                let f = |t: (u64, State)| t.1 == State::Ready;
                assert(self@.subrange(0, i + 1) == self@.subrange(0, i as int).push(self@[i as int]));
                self@.subrange(0, i as int).lemma_filter_push(self@[i as int], f);
            }
            if self.threads[i].state == State::Ready {
                ready = ready + 1;
            }
            i = i + 1;
        }
        assert(self@.subrange(0, i as int) == self@);
        (self.threads.len(), ready)
    }

    /// The capability space of the thread on the CPU, for a system call to act on.
    pub fn with_caps(&mut self) -> (caps: &mut CapSpace<CAP_SLOTS>)
        requires
            old(self).wf(),
            old(self)@.len() > 0,
        ensures
            caps@ == old(self).caps_view()[old(self).current_index()],
            caps.wf(),
            final(self)@ == old(self)@,
            final(self).current_index() == old(self).current_index(),
            final(self).caps_view() == old(self).caps_view().update(
                old(self).current_index(),
                final(caps)@,
            ),
            final(caps).wf() ==> final(self).wf(),
            final(self).next_id_spec() == old(self).next_id_spec(),
            final(self).resched_spec() == old(self).resched_spec(),
            final(self).switches_spec() == old(self).switches_spec(),
            final(self).exit_spec() == old(self).exit_spec(),
    {
        let cur = self.current;
        &mut self.threads[cur].caps
    }
}

/// Gives a thread's capability space the three capabilities every user program here is born
/// holding, and answers their raw handles: the console and the registry with every right, and
/// the journal with `READ` only, since nothing but the kernel ever writes an event. Seeded
/// explicitly rather than by default: a thread granted nothing can do nothing. Fails with
/// `OutOfSlots`, having seeded what fit, when the space runs out of room; a space with every
/// slot free always has room.
pub fn seed_capabilities(caps: &mut CapSpace<CAP_SLOTS>) -> (r: Result<(u64, u64, u64), CapError>)
    requires
        old(caps).wf(),
    ensures
        final(caps).wf(),
        match r {
            Ok((console, registry, journal)) => {
                &&& lookup(final(caps)@, Handle(console)) == Ok::<(Object, Rights), CapError>(
                    (Object::Console, Rights(15)),
                )
                &&& lookup(final(caps)@, Handle(registry)) == Ok::<(Object, Rights), CapError>(
                    (Object::Registry, Rights(15)),
                )
                &&& lookup(final(caps)@, Handle(journal)) == Ok::<(Object, Rights), CapError>(
                    (Object::Journal, Rights(1)),
                )
                &&& forall|i: int|
                    0 <= i < old(caps)@.len() && i != Handle(console).slot() && i != Handle(
                        registry,
                    ).slot() && i != Handle(journal).slot() ==> #[trigger] final(caps)@[i] == old(
                        caps,
                    )@[i]
            },
            Err(e) => e == CapError::OutOfSlots,
        },
        final(caps)@.len() == old(caps)@.len(),
        forall|i: int|
            0 <= i < old(caps)@.len() && !is_free(old(caps)@, i) ==> #[trigger] final(caps)@[i]
                == old(caps)@[i],
        (forall|i: int| 0 <= i < old(caps)@.len() ==> #[trigger] is_free(old(caps)@, i)) ==> r is Ok,
{
    let ghost v0 = caps@;
    proof {
        caps.lemma_view_len();
    }
    let console = match caps.insert(Object::Console, Rights::ALL()) {
        Ok(h) => h,
        Err(e) => {
            proof {
                if forall|i: int| 0 <= i < v0.len() ==> #[trigger] is_free(v0, i) {
                    assert(is_free(v0, 0));
                }
            }
            return Err(e);
        },
    };
    let ghost v1 = caps@;
    let ghost all_free = forall|i: int| 0 <= i < v0.len() ==> #[trigger] is_free(v0, i);
    proof {
        if all_free {
            assert(is_free(v0, 0));
            assert(console.slot() == 0);
            assert(v1[1] == v0[1] && v1[2] == v0[2]);
        }
    }
    let registry = match caps.insert(Object::Registry, Rights::ALL()) {
        Ok(h) => h,
        Err(e) => {
            proof {
                if all_free {
                    assert(is_free(v0, 1));
                    assert(is_free(v1, 1));
                }
            }
            return Err(e);
        },
    };
    let ghost v2 = caps@;
    proof {
        if all_free {
            assert(is_free(v0, 1));
            assert(is_free(v1, 1));
            assert(registry.slot() == 1);
            assert(v2[2] == v1[2]);
        }
    }
    let journal = match caps.insert(Object::Journal, Rights::READ()) {
        Ok(h) => h,
        Err(e) => {
            proof {
                if all_free {
                    assert(is_free(v0, 2));
                    assert(is_free(v1, 2));
                    assert(is_free(v2, 2));
                }
            }
            return Err(e);
        },
    };
    proof {
        // Each insertion takes a free slot, so it leaves the earlier capabilities where they were.
        assert(!is_free(v1, console.slot() as int));
        assert(!is_free(v2, registry.slot() as int));
        assert(console.slot() != registry.slot());
        assert(console.slot() != journal.slot());
        assert(registry.slot() != journal.slot());
    }
    Ok((console.raw(), registry.raw(), journal.raw()))
}

} // verus!
