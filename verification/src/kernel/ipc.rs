//! Endpoints, and the registry that lets a program find one by name.
//!
//! A receiver with an empty queue parks; a sender wakes everyone parked on that endpoint and
//! lets them race for it. This module decides which: `recv` says "park" rather than blocking,
//! and the caller does the parking and the waking.

use vstd::prelude::*;

use crate::ipc::{IpcError, Message, MessageQueue, Name, Registry};
use crate::ipc::registry::{live_bindings, lowest_free_slot};

verus! {

/// Messages an endpoint holds before a send is refused.
pub const QUEUE_DEPTH: usize = 8;

/// How many names the registry can hold at once.
pub const REGISTRY_SLOTS: usize = 16;

/// Errors that are about endpoints rather than about message or name encoding.
#[derive(Debug, Clone, Copy, PartialEq, Eq, Structural)]
pub enum IpcFault {
    /// No endpoint with that id — it never existed, or the capability outlived it.
    NoSuchEndpoint,
    /// The endpoint's queue or the registry is full.
    Full,
    /// The registry holds no entry under that name.
    NotFound,
    /// The message or the name was malformed. Carries what was wrong with it.
    Malformed(IpcError),
}

/// The fault an encoding error becomes: a full queue or registry is `Full`, anything else is
/// `Malformed`.
pub open spec fn fault_of(e: IpcError) -> IpcFault {
    match e {
        IpcError::QueueFull | IpcError::RegistryFull => IpcFault::Full,
        other => IpcFault::Malformed(other),
    }
}

impl IpcFault {
    /// The fault an encoding error becomes.
    pub fn from_error(e: IpcError) -> (f: IpcFault)
        ensures
            f == fault_of(e),
    {
        match e {
            IpcError::QueueFull | IpcError::RegistryFull => IpcFault::Full,
            other => IpcFault::Malformed(other),
        }
    }
}

/// One endpoint: its id and the messages waiting on it.
pub struct Endpoint {
    id: u64,
    queue: MessageQueue<QUEUE_DEPTH>,
}

impl Endpoint {
    /// The id and the waiting messages, oldest first.
    pub closed spec fn view(&self) -> (u64, Seq<Message>) {
        (self.id, self.queue@)
    }

    pub closed spec fn wf(&self) -> bool {
        &&& self.queue.wf()
        &&& forall|i: int| 0 <= i < self.queue@.len() ==> (#[trigger] self.queue@[i]).header.len <= 64
    }
}

/// The position of the first endpoint carrying `id`, or the length when none does.
pub open spec fn endpoint_index(eps: Seq<(u64, Seq<Message>)>, id: u64) -> int
    decreases eps.len(),
{
    if eps.len() == 0 {
        0
    } else if eps[0].0 == id {
        0
    } else {
        1 + endpoint_index(eps.drop_first(), id)
    }
}

/// `endpoint_index` is the first match, or the length when nothing matches.
pub proof fn lemma_endpoint_index(eps: Seq<(u64, Seq<Message>)>, id: u64, i: int)
    requires
        0 <= i <= eps.len(),
        forall|j: int| 0 <= j < i ==> #[trigger] eps[j].0 != id,
        i == eps.len() || eps[i].0 == id,
    ensures
        endpoint_index(eps, id) == i,
    decreases i,
{
    if i > 0 {
        let rest = eps.drop_first();
        assert forall|j: int| 0 <= j < i - 1 implies #[trigger] rest[j].0 != id by {
            assert(rest[j] == eps[j + 1]);
        }
        if i < eps.len() {
            assert(rest[i - 1] == eps[i]);
        }
        lemma_endpoint_index(rest, id, i - 1);
    }
}

/// Every endpoint's id and waiting messages, in creation order; `None` before `init`.
pub type EndpointsView = Option<Seq<(u64, Seq<Message>)>>;

/// What a send to `endpoint` answers: `NoSuchEndpoint` before `init` or when no endpoint
/// carries that id, `Full` when the first that does has `QUEUE_DEPTH` messages waiting.
pub open spec fn sent(eps: EndpointsView, endpoint: u64) -> Result<(), IpcFault> {
    match eps {
        None => Err(IpcFault::NoSuchEndpoint),
        Some(s) => {
            let k = endpoint_index(s, endpoint);
            if k == s.len() {
                Err(IpcFault::NoSuchEndpoint)
            } else if s[k].1.len() >= QUEUE_DEPTH {
                Err(IpcFault::Full)
            } else {
                Ok(())
            }
        },
    }
}

/// The endpoints after a send: the message joins the back of the first matching queue when
/// the send succeeds; nothing changes otherwise.
pub open spec fn after_send(eps: EndpointsView, endpoint: u64, message: Message) -> EndpointsView {
    if sent(eps, endpoint) is Ok {
        let s = eps->Some_0;
        let k = endpoint_index(s, endpoint);
        Some(s.update(k, (endpoint, s[k].1.push(message))))
    } else {
        eps
    }
}

/// What a receive from `endpoint` answers: the oldest waiting message, `None` when nothing
/// waits, `NoSuchEndpoint` before `init` or when no endpoint carries that id.
pub open spec fn received(eps: EndpointsView, endpoint: u64) -> Result<Option<Message>, IpcFault> {
    match eps {
        None => Err(IpcFault::NoSuchEndpoint),
        Some(s) => {
            let k = endpoint_index(s, endpoint);
            if k == s.len() {
                Err(IpcFault::NoSuchEndpoint)
            } else if s[k].1.len() == 0 {
                Ok(None)
            } else {
                Ok(Some(s[k].1[0]))
            }
        },
    }
}

/// The endpoints after a receive: a delivered message leaves its queue.
pub open spec fn after_receive(eps: EndpointsView, endpoint: u64) -> EndpointsView {
    if received(eps, endpoint) matches Ok(Some(_)) {
        let s = eps->Some_0;
        let k = endpoint_index(s, endpoint);
        Some(s.update(k, (endpoint, s[k].1.drop_first())))
    } else {
        eps
    }
}

/// What looking `name` up answers.
pub open spec fn looked_up(reg: Option<Map<Name, u64>>, name: Name) -> Result<u64, IpcFault> {
    match reg {
        Some(m) => if m.contains_key(name) {
            Ok(m[name])
        } else {
            Err(IpcFault::NotFound)
        },
        None => Err(IpcFault::NotFound),
    }
}

/// What publishing under `name` answers, given the registry and how many names it holds:
/// `NotFound` before `init`, `NameTaken` (as `Malformed`) for a name already bound, `Full`
/// when every slot is taken.
pub open spec fn registration(reg: Option<Map<Name, u64>>, count: Option<nat>, name: Name) -> Result<(), IpcFault> {
    match reg {
        None => Err(IpcFault::NotFound),
        Some(m) => if m.contains_key(name) {
            Err(IpcFault::Malformed(IpcError::NameTaken))
        } else if count == Some(REGISTRY_SLOTS as nat) {
            Err(IpcFault::Full)
        } else {
            Ok(())
        },
    }
}

/// The endpoint table and the registry, each `None` until `init`, and the id the next endpoint
/// gets.
pub struct Ipc {
    endpoints: Option<Vec<Endpoint>>,
    registry: Option<Registry<REGISTRY_SLOTS>>,
    next_endpoint: u64,
}

impl Ipc {
    /// Every endpoint, in creation order, or `None` before `init`.
    pub closed spec fn endpoints_view(&self) -> Option<Seq<(u64, Seq<Message>)>> {
        match self.endpoints {
            Some(list) => Some(list@.map_values(|e: Endpoint| e@)),
            None => None,
        }
    }

    /// The registry's bindings, or `None` before `init`.
    pub closed spec fn registry_view(&self) -> Option<Map<Name, u64>> {
        match self.registry {
            Some(r) => Some(r@),
            None => None,
        }
    }

    /// The registry's slots, in order, or `None` before `init`.
    pub closed spec fn registry_slots(&self) -> Option<Seq<Option<(Name, u64)>>> {
        match self.registry {
            Some(r) => Some(r.slots()),
            None => None,
        }
    }

    /// What is published, in the order it is listed: slot order.
    pub open spec fn listing(&self) -> Seq<(Name, u64)> {
        match self.registry_slots() {
            Some(s) => live_bindings(s),
            None => Seq::empty(),
        }
    }

    /// How many names the registry holds, or `None` before `init`.
    pub closed spec fn registry_count(&self) -> Option<nat> {
        match self.registry {
            Some(r) => Some(r.occupied()),
            None => None,
        }
    }

    /// The id the next endpoint gets.
    pub closed spec fn next_id(&self) -> u64 {
        self.next_endpoint
    }

    pub closed spec fn wf(&self) -> bool {
        &&& (self.endpoints matches Some(list) ==> forall|i: int|
            0 <= i < list@.len() ==> #[trigger] list@[i].wf())
        &&& (self.registry matches Some(r) ==> r.wf() && r.occupied() <= REGISTRY_SLOTS)
    }

    /// Before `init`: no endpoint table, no registry, and endpoint ids starting at 1 so that
    /// zero never names one.
    pub fn new() -> (s: Ipc)
        ensures
            s.wf(),
            s.endpoints_view() is None,
            s.registry_view() is None,
            s.next_id() == 1,
            ids_fresh(s.endpoints_view(), s.next_id()),
    {
        Ipc { endpoints: None, registry: None, next_endpoint: 1 }
    }

    /// Creates the endpoint table and the registry, both empty.
    pub fn init(&mut self)
        ensures
            final(self).wf(),
            final(self).endpoints_view() == Some(Seq::<(u64, Seq<Message>)>::empty()),
            final(self).registry_view() == Some(Map::<Name, u64>::empty()),
            final(self).registry_count() == Some(0nat),
            final(self).registry_slots() == Some(
                Seq::new(REGISTRY_SLOTS as nat, |i: int| None::<(Name, u64)>),
            ),
            final(self).next_id() == old(self).next_id(),
            old(self).next_id() >= 1 ==> ids_fresh(final(self).endpoints_view(), final(self).next_id()),
    {
        self.endpoints = Some(Vec::new());
        let r = Registry::new();
        assert(r.slots() =~= Seq::new(REGISTRY_SLOTS as nat, |i: int| None::<(Name, u64)>));
        self.registry = Some(r);
        assert(self.endpoints_view()->0 =~= Seq::<(u64, Seq<Message>)>::empty());
    }

    /// Creates an endpoint and returns its id. Ids count up from 1, wrapping past `u64::MAX`;
    /// before `init` the id is still used up, but no endpoint is made.
    pub fn create_endpoint(&mut self) -> (id: u64)
        requires
            old(self).wf(),
        ensures
            final(self).wf(),
            id == old(self).next_id(),
            final(self).next_id() == vstd::wrapping::u64_specs::wrapping_add(id, 1),
            final(self).endpoints_view() == match old(self).endpoints_view() {
                Some(eps) => Some(eps.push((id, Seq::<Message>::empty()))),
                None => None,
            },
            final(self).registry_view() == old(self).registry_view(),
            final(self).registry_count() == old(self).registry_count(),
            final(self).registry_slots() == old(self).registry_slots(),
            ids_fresh(old(self).endpoints_view(), old(self).next_id()) && old(self).next_id()
                < u64::MAX ==> ids_fresh(final(self).endpoints_view(), final(self).next_id()),
    {
        let id = self.next_endpoint;
        let ghost before = *self;
        self.next_endpoint = self.next_endpoint.wrapping_add(1);
        match self.endpoints.take() {
            Some(mut list) => {
                let ghost before = list@;
                let e = Endpoint { id, queue: MessageQueue::new() };
                list.push(e);
                proof {
                    assert(list@.map_values(|e: Endpoint| e@) =~= before.map_values(
                        |e: Endpoint| e@,
                    ).push((id, Seq::<Message>::empty())));
                }
                self.endpoints = Some(list);
            },
            None => {},
        }
        proof {
            if ids_fresh(before.endpoints_view(), before.next_id()) && before.next_id() < u64::MAX {
                lemma_created_endpoint_is_fresh(before, *self);
            }
        }
        id
    }

    /// Finds the first endpoint carrying `id`.
    fn find(list: &Vec<Endpoint>, id: u64) -> (k: usize)
        ensures
            k == endpoint_index(list@.map_values(|e: Endpoint| e@), id),
            k <= list@.len(),
            k < list@.len() ==> list@[k as int].id == id,
    {
        let ghost eps = list@.map_values(|e: Endpoint| e@);
        let mut k: usize = 0;
        while k < list.len()
            invariant
                k <= list@.len(),
                eps == list@.map_values(|e: Endpoint| e@),
                forall|j: int| 0 <= j < k ==> #[trigger] eps[j].0 != id,
            decreases list@.len() - k,
        {
            if list[k].id == id {
                proof {
                    lemma_endpoint_index(eps, id, k as int);
                }
                return k;
            }
            k = k + 1;
        }
        proof {
            lemma_endpoint_index(eps, id, k as int);
        }
        k
    }

    /// Queues a message on the first endpoint carrying `endpoint`. The caller then wakes
    /// whoever is parked on it.
    pub fn send(&mut self, endpoint: u64, message: Message) -> (r: Result<(), IpcFault>)
        requires
            old(self).wf(),
            message.header.len <= 64,
        ensures
            final(self).wf(),
            final(self).registry_view() == old(self).registry_view(),
            final(self).registry_count() == old(self).registry_count(),
            final(self).registry_slots() == old(self).registry_slots(),
            final(self).next_id() == old(self).next_id(),
            r == sent(old(self).endpoints_view(), endpoint),
            final(self).endpoints_view() == after_send(old(self).endpoints_view(), endpoint, message),
            ids_fresh(old(self).endpoints_view(), old(self).next_id()) ==> ids_fresh(
                final(self).endpoints_view(),
                final(self).next_id(),
            ),
    {
        proof {
            if ids_fresh(self.endpoints_view(), self.next_id()) {
                lemma_traffic_keeps_ids(self.endpoints_view(), endpoint, message, self.next_id());
            }
        }
        let mut list = match self.endpoints.take() {
            Some(l) => l,
            None => return Err(IpcFault::NoSuchEndpoint),
        };
        let ghost before = list@;
        let k = Self::find(&list, endpoint);
        if k == list.len() {
            self.endpoints = Some(list);
            return Err(IpcFault::NoSuchEndpoint);
        }
        assert(before[k as int].wf());
        let mut ep = list.remove(k);
        let ghost ep0 = ep;
        proof {
            ep0.queue.lemma_len_bounded();
        }
        let pushed = ep.queue.push(message);
        assert(pushed is Ok ==> ep@ == (endpoint, ep0@.1.push(message)));
        assert(pushed is Err ==> ep@ == ep0@);
        list.insert(k, ep);
        assert(list@ =~= before.update(k as int, ep));
        proof {
            assert forall|i: int| 0 <= i < list@.len() implies #[trigger] list@[i].wf() by {
                if i != k {
                    assert(list@[i] == before[i]);
                }
            }
            let now = list@.map_values(|e: Endpoint| e@);
            let was = before.map_values(|e: Endpoint| e@);
            if pushed is Ok {
                assert(now =~= was.update(k as int, (endpoint, was[k as int].1.push(message))));
            } else {
                assert(now =~= was);
            }
        }
        self.endpoints = Some(list);
        match pushed {
            Ok(()) => Ok(()),
            Err(e) => Err(IpcFault::from_error(e)),
        }
    }

    /// Takes the oldest message waiting on the first endpoint carrying `endpoint`, if any.
    pub fn try_recv(&mut self, endpoint: u64) -> (r: Result<Option<Message>, IpcFault>)
        requires
            old(self).wf(),
        ensures
            final(self).wf(),
            final(self).registry_view() == old(self).registry_view(),
            final(self).registry_count() == old(self).registry_count(),
            final(self).registry_slots() == old(self).registry_slots(),
            final(self).next_id() == old(self).next_id(),
            r == received(old(self).endpoints_view(), endpoint),
            final(self).endpoints_view() == after_receive(old(self).endpoints_view(), endpoint),
            r matches Ok(Some(m)) ==> m.header.len <= 64,
            ids_fresh(old(self).endpoints_view(), old(self).next_id()) ==> ids_fresh(
                final(self).endpoints_view(),
                final(self).next_id(),
            ),
    {
        proof {
            if ids_fresh(self.endpoints_view(), self.next_id()) {
                lemma_traffic_keeps_ids(
                    self.endpoints_view(),
                    endpoint,
                    arbitrary(),
                    self.next_id(),
                );
            }
        }
        let mut list = match self.endpoints.take() {
            Some(l) => l,
            None => return Err(IpcFault::NoSuchEndpoint),
        };
        let ghost before = list@;
        let k = Self::find(&list, endpoint);
        if k == list.len() {
            self.endpoints = Some(list);
            return Err(IpcFault::NoSuchEndpoint);
        }
        assert(before[k as int].wf());
        let mut ep = list.remove(k);
        let ghost ep0 = ep;
        let popped = ep.queue.pop();
        assert(ep.id == ep0.id);
        assert(popped is Some ==> ep@ == (endpoint, ep0@.1.drop_first()));
        assert(popped is None ==> ep@ == ep0@);
        list.insert(k, ep);
        assert(list@ =~= before.update(k as int, ep));
        proof {
            assert forall|i: int| 0 <= i < list@.len() implies #[trigger] list@[i].wf() by {
                if i != k {
                    assert(list@[i] == before[i]);
                }
            }
            let now = list@.map_values(|e: Endpoint| e@);
            let was = before.map_values(|e: Endpoint| e@);
            if popped is Some {
                assert(now =~= was.update(k as int, (endpoint, was[k as int].1.drop_first())));
            } else {
                assert(now =~= was);
            }
        }
        self.endpoints = Some(list);
        Ok(popped)
    }

    /// What a receive on `endpoint` does now: deliver the oldest waiting message, or — with
    /// nothing waiting — park the caller until a send wakes it, after which it asks again.
    pub fn recv(&mut self, endpoint: u64) -> (r: Result<Received, IpcFault>)
        requires
            old(self).wf(),
        ensures
            final(self).wf(),
            final(self).registry_view() == old(self).registry_view(),
            final(self).registry_count() == old(self).registry_count(),
            final(self).registry_slots() == old(self).registry_slots(),
            final(self).next_id() == old(self).next_id(),
            final(self).endpoints_view() == after_receive(old(self).endpoints_view(), endpoint),
            match received(old(self).endpoints_view(), endpoint) {
                Err(f) => r == Err::<Received, IpcFault>(f),
                Ok(None) => r == Ok::<Received, IpcFault>(Received::Park),
                Ok(Some(m)) => r == Ok::<Received, IpcFault>(Received::Message(m)) && m.header.len <= 64,
            },
            ids_fresh(old(self).endpoints_view(), old(self).next_id()) ==> ids_fresh(
                final(self).endpoints_view(),
                final(self).next_id(),
            ),
    {
        match self.try_recv(endpoint)? {
            Some(message) => Ok(Received::Message(message)),
            None => Ok(Received::Park),
        }
    }

    /// Publishes a value under a name. Before `init` there is no registry to publish in:
    /// `NotFound`.
    pub fn register(&mut self, name: Name, value: u64) -> (r: Result<(), IpcFault>)
        requires
            old(self).wf(),
        ensures
            final(self).wf(),
            final(self).endpoints_view() == old(self).endpoints_view(),
            final(self).next_id() == old(self).next_id(),
            r == registration(old(self).registry_view(), old(self).registry_count(), name),
            r is Ok ==> final(self).registry_view() == Some(old(self).registry_view()->0.insert(name, value))
                && final(self).registry_count() == Some(old(self).registry_count()->0 + 1),
            r is Ok ==> exists|i: int|
                #[trigger] lowest_free_slot(old(self).registry_slots()->Some_0, i)
                    && final(self).registry_slots() == Some(
                    old(self).registry_slots()->Some_0.update(i, Some((name, value))),
                ),
            r is Err ==> final(self).registry_view() == old(self).registry_view()
                && final(self).registry_count() == old(self).registry_count()
                && final(self).registry_slots() == old(self).registry_slots(),
    {
        let mut registry = match self.registry.take() {
            Some(r) => r,
            None => return Err(IpcFault::NotFound),
        };
        let ghost before = registry.slots();
        let result = registry.register(name, value);
        self.registry = Some(registry);
        proof {
            if result is Ok {
                let i = choose|i: int|
                    #[trigger] lowest_free_slot(before, i) && registry.slots() == before.update(
                        i,
                        Some((name, value)),
                    );
                assert(old(self).registry_slots()->Some_0 == before);
                assert(self.registry_slots() == Some(before.update(i, Some((name, value)))));
                assert(lowest_free_slot(old(self).registry_slots()->Some_0, i));
            }
        }
        match result {
            Ok(()) => Ok(()),
            Err(e) => Err(IpcFault::from_error(e)),
        }
    }

    /// Looks a name up. `NotFound` when nothing is published under it, or before `init`.
    pub fn lookup(&self, name: &Name) -> (r: Result<u64, IpcFault>)
        requires
            self.wf(),
        ensures
            r == looked_up(self.registry_view(), *name),
    {
        match &self.registry {
            Some(registry) => match registry.lookup(name) {
                Some(v) => Ok(v),
                None => Err(IpcFault::NotFound),
            },
            None => Err(IpcFault::NotFound),
        }
    }

    /// What is currently published, for listing.
    pub fn services(&self) -> (v: Vec<(Name, u64)>)
        requires
            self.wf(),
        ensures
            v@ == self.listing(),
            self.registry_view() is None ==> v@.len() == 0,
            self.registry_view() matches Some(m) ==> (forall|i: int|
                0 <= i < v@.len() ==> #[trigger] m.contains_key(v@[i].0) && m[v@[i].0]
                    == v@[i].1) && v@.len() == self.registry_count()->0,
    {
        match &self.registry {
            Some(registry) => {
                let v = registry.iter();
                assert forall|i: int| 0 <= i < v@.len() implies #[trigger] registry@.contains_key(
                    v@[i].0,
                ) && registry@[v@[i].0] == v@[i].1 by {
                    assert(v@[i] == (v@[i].0, v@[i].1));
                    assert(v@.contains((v@[i].0, v@[i].1)));
                }
                v
            },
            None => Vec::new(),
        }
    }
}

/// What a receive does now.
pub enum Received {
    /// A message was waiting; here it is.
    Message(Message),
    /// Nothing was waiting: park the caller on the endpoint until a send wakes it.
    Park,
}

/// Two states of the endpoint table and registry that agree on everything.
pub open spec fn ipc_unchanged(before: Ipc, after: Ipc) -> bool {
    &&& after.endpoints_view() == before.endpoints_view()
    &&& after.registry_view() == before.registry_view()
    &&& after.registry_count() == before.registry_count()
    &&& after.registry_slots() == before.registry_slots()
    &&& after.next_id() == before.next_id()
}

/// `after` is `before` with one endpoint created under `before`'s next id.
pub open spec fn endpoint_created(before: Ipc, after: Ipc) -> bool {
    &&& after.next_id() == vstd::wrapping::u64_specs::wrapping_add(before.next_id(), 1)
    &&& after.endpoints_view() == match before.endpoints_view() {
        Some(eps) => Some(eps.push((before.next_id(), Seq::<Message>::empty()))),
        None => None,
    }
    &&& after.registry_view() == before.registry_view()
    &&& after.registry_count() == before.registry_count()
    &&& after.registry_slots() == before.registry_slots()
}

/// Endpoint ids as `create_endpoint` hands them out before they wrap: `next` is at least 1,
/// and the endpoints carry ids from 1 up, strictly increasing in creation order, all below
/// `next`. In particular no two endpoints share an id.
pub open spec fn ids_fresh(eps: EndpointsView, next: u64) -> bool {
    &&& 1 <= next
    &&& eps matches Some(s) ==> {
        &&& forall|i: int| 0 <= i < s.len() ==> 1 <= (#[trigger] s[i]).0 < next
        &&& forall|i: int, j: int| 0 <= i < j < s.len() ==> (#[trigger] s[i]).0 < (#[trigger] s[j]).0
    }
}

/// `endpoint_index` finds the first endpoint carrying `id`, or runs to the end.
proof fn lemma_endpoint_index_first(eps: Seq<(u64, Seq<Message>)>, id: u64)
    ensures
        0 <= endpoint_index(eps, id) <= eps.len(),
        forall|j: int| 0 <= j < endpoint_index(eps, id) ==> #[trigger] eps[j].0 != id,
        endpoint_index(eps, id) < eps.len() ==> eps[endpoint_index(eps, id)].0 == id,
    decreases eps.len(),
{
    if eps.len() > 0 && eps[0].0 != id {
        let rest = eps.drop_first();
        lemma_endpoint_index_first(rest, id);
        assert forall|j: int| 0 <= j < endpoint_index(eps, id) implies #[trigger] eps[j].0 != id by {
            if j > 0 {
                assert(eps[j] == rest[j - 1]);
            }
        }
    }
}

/// Changing what waits on an endpoint, but not its id, moves no endpoint's index.
proof fn lemma_endpoint_index_stable(
    eps: Seq<(u64, Seq<Message>)>,
    k: int,
    queue: Seq<Message>,
    id: u64,
)
    requires
        0 <= k < eps.len(),
    ensures
        endpoint_index(eps.update(k, (eps[k].0, queue)), id) == endpoint_index(eps, id),
{
    let after = eps.update(k, (eps[k].0, queue));
    lemma_endpoint_index_first(eps, id);
    let i = endpoint_index(eps, id);
    assert forall|j: int| 0 <= j < i implies #[trigger] after[j].0 != id by {
        assert(after[j].0 == eps[j].0);
    }
    if i < eps.len() {
        assert(after[i].0 == eps[i].0);
    }
    lemma_endpoint_index(after, id, i);
}

/// Sending and receiving change what waits on an endpoint, never which endpoints exist: the
/// ids stay as they were, in the same order, so fresh ids stay fresh.
pub proof fn lemma_traffic_keeps_ids(eps: EndpointsView, endpoint: u64, message: Message, next: u64)
    requires
        ids_fresh(eps, next),
    ensures
        after_send(eps, endpoint, message) is Some <==> eps is Some,
        after_receive(eps, endpoint) is Some <==> eps is Some,
        eps matches Some(s) ==> {
            &&& after_send(eps, endpoint, message)->Some_0.len() == s.len()
            &&& after_receive(eps, endpoint)->Some_0.len() == s.len()
            &&& forall|i: int|
                0 <= i < s.len() ==> (#[trigger] after_send(eps, endpoint, message)->Some_0[i]).0
                    == s[i].0 && after_receive(eps, endpoint)->Some_0[i].0 == s[i].0
        },
        ids_fresh(after_send(eps, endpoint, message), next),
        ids_fresh(after_receive(eps, endpoint), next),
{
    if let Some(s) = eps {
        lemma_endpoint_index_first(s, endpoint);
        let a = after_send(eps, endpoint, message)->Some_0;
        let b = after_receive(eps, endpoint)->Some_0;
        assert forall|i: int, j: int| 0 <= i < j < s.len() implies (#[trigger] a[i]).0 < (
        #[trigger] a[j]).0 && b[i].0 < b[j].0 by {
            assert(s[i].0 < s[j].0);
        }
    }
}

/// With fresh ids, an id of 0 or of `next` and beyond names no endpoint.
pub proof fn lemma_unissued_id_names_nothing(eps: EndpointsView, next: u64, x: u64)
    requires
        ids_fresh(eps, next),
        x == 0 || x >= next,
    ensures
        received(eps, x) == Err::<Option<Message>, IpcFault>(IpcFault::NoSuchEndpoint),
        sent(eps, x) == Err::<(), IpcFault>(IpcFault::NoSuchEndpoint),
{
    if let Some(s) = eps {
        lemma_endpoint_index_first(s, x);
        if endpoint_index(s, x) < s.len() {
            assert(1 <= s[endpoint_index(s, x)].0 < next);
        }
    }
}

/// One creation keeps ids fresh, as long as they have not wrapped: the new endpoint's id is
/// above every id in use, it is the endpoint that id names, and nothing waits on it yet.
pub proof fn lemma_created_endpoint_is_fresh(before: Ipc, after: Ipc)
    requires
        ids_fresh(before.endpoints_view(), before.next_id()),
        before.next_id() < u64::MAX,
        endpoint_created(before, after),
    ensures
        after.next_id() == before.next_id() + 1,
        ids_fresh(after.endpoints_view(), after.next_id()),
        before.endpoints_view() matches Some(s) ==> forall|i: int|
            0 <= i < s.len() ==> (#[trigger] s[i]).0 < before.next_id(),
        before.endpoints_view() is Some ==> received(after.endpoints_view(), before.next_id())
            == Ok::<Option<Message>, IpcFault>(None),
{
    let id = before.next_id();
    if let Some(s) = before.endpoints_view() {
        let t = s.push((id, Seq::<Message>::empty()));
        assert forall|j: int| 0 <= j < s.len() implies #[trigger] t[j].0 != id by {
            assert(t[j] == s[j]);
        }
        lemma_endpoint_index(t, id, s.len() as int);
        assert forall|i: int, j: int| 0 <= i < j < t.len() implies (#[trigger] t[i]).0 < (
        #[trigger] t[j]).0 by {
            assert(t[i] == s[i]);
            if j < s.len() {
                assert(t[j] == s[j]);
            }
        }
    }
}

/// Endpoint ids handed out over any run of creations never repeat. `states` are the Ipc
/// states around each call of `create_endpoint`, the `k`th call answering `states[k]`'s next
/// id; none is made while ids would wrap. Then every id handed out is at least 1 and above
/// all those handed out before it, every endpoint made is named by its id alone, and the last
/// one made has nothing waiting.
pub proof fn lemma_endpoint_ids_never_repeat(states: Seq<Ipc>)
    requires
        states.len() >= 1,
        ids_fresh(states[0].endpoints_view(), states[0].next_id()),
        forall|k: int|
            0 <= k < states.len() - 1 ==> #[trigger] endpoint_created(states[k], states[k + 1]),
        forall|k: int| 0 <= k < states.len() - 1 ==> #[trigger] states[k].next_id() < u64::MAX,
    ensures
        ids_fresh(states.last().endpoints_view(), states.last().next_id()),
        forall|k: int| 0 <= k < states.len() ==> 1 <= #[trigger] states[k].next_id(),
        forall|k1: int, k2: int|
            0 <= k1 < k2 < states.len() ==> #[trigger] states[k1].next_id() < #[trigger] states[k2].next_id(),
        states.len() >= 2 && states[0].endpoints_view() is Some ==> received(
            states.last().endpoints_view(),
            states[states.len() - 2].next_id(),
        ) == Ok::<Option<Message>, IpcFault>(None),
    decreases states.len(),
{
    if states.len() > 1 {
        let init = states.drop_last();
        assert forall|k: int| 0 <= k < init.len() - 1 implies #[trigger] endpoint_created(
            init[k],
            init[k + 1],
        ) by {
            assert(init[k] == states[k] && init[k + 1] == states[k + 1]);
            assert(endpoint_created(states[k], states[k + 1]));
        }
        assert forall|k: int| 0 <= k < init.len() - 1 implies #[trigger] init[k].next_id()
            < u64::MAX by {
            assert(init[k] == states[k]);
            assert(states[k].next_id() < u64::MAX);
        }
        lemma_endpoint_ids_never_repeat(init);
        let n = states.len() - 1;
        let j = n - 1;
        assert(endpoint_created(states[j], states[j + 1]));
        assert(states[n - 1].next_id() < u64::MAX);
        assert(init.last() == states[n - 1]);
        lemma_created_endpoint_is_fresh(states[n - 1], states[n]);
        // Before `init` is made into an endpoint table, none is ever made afterwards either.
        lemma_tables_persist(states, n - 1);
        assert forall|k: int| 0 <= k < states.len() implies 1 <= #[trigger] states[k].next_id() by {
            if k < n {
                assert(init[k] == states[k]);
            }
        }
        assert forall|k1: int, k2: int| 0 <= k1 < k2 < states.len() implies #[trigger] states[k1].next_id()
            < #[trigger] states[k2].next_id() by {
            assert(init[k1] == states[k1]);
            if k2 < n {
                assert(init[k2] == states[k2]);
            } else {
                assert(states[k1].next_id() <= states[n - 1].next_id()) by {
                    if k1 < n - 1 {
                        assert(init[n - 1] == states[n - 1]);
                        assert(init[k1].next_id() < init[n - 1].next_id());
                    }
                }
            }
        }
    }
}

/// Creating endpoints never makes or drops the endpoint table.
proof fn lemma_tables_persist(states: Seq<Ipc>, k: int)
    requires
        0 <= k < states.len(),
        forall|j: int|
            0 <= j < states.len() - 1 ==> #[trigger] endpoint_created(states[j], states[j + 1]),
    ensures
        states[k].endpoints_view() is Some <==> states[0].endpoints_view() is Some,
    decreases k,
{
    if k > 0 {
        lemma_tables_persist(states, k - 1);
        let j = k - 1;
        assert(endpoint_created(states[j], states[j + 1]));
    }
}

/// Every message waiting on an endpoint fits in a payload, so the oldest one a receive would
/// deliver does too.
pub proof fn lemma_waiting_messages_fit(ipc: Ipc, endpoint: u64)
    requires
        ipc.wf(),
    ensures
        received(ipc.endpoints_view(), endpoint) matches Ok(Some(m)) ==> m.header.len <= 64,
{
    if let Some(list) = ipc.endpoints {
        let s = list@.map_values(|e: Endpoint| e@);
        lemma_endpoint_index_first(s, endpoint);
        let k = endpoint_index(s, endpoint);
        if k < s.len() {
            assert(list@[k].wf());
            assert(s[k] == list@[k]@);
        }
    }
}

/// The queue of the endpoint `endpoint` names, as `eps` has it.
pub open spec fn queue_of(eps: EndpointsView, endpoint: u64) -> Seq<Message> {
    eps->Some_0[endpoint_index(eps->Some_0, endpoint)].1
}

/// Whether `endpoint` names an endpoint of `eps`.
pub open spec fn names_endpoint(eps: EndpointsView, endpoint: u64) -> bool {
    eps matches Some(s) && endpoint_index(s, endpoint) < s.len()
}

/// Runs `ops` against `endpoint` in turn, each `Some(m)` a send of `m` and each `None` a
/// receive: the messages the receives delivered, the messages the sends had accepted, and the
/// endpoints afterwards.
pub open spec fn traffic(eps: EndpointsView, endpoint: u64, ops: Seq<Option<Message>>) -> (
    Seq<Message>,
    Seq<Message>,
    EndpointsView,
)
    decreases ops.len(),
{
    if ops.len() == 0 {
        (Seq::empty(), Seq::empty(), eps)
    } else {
        let (got, taken, mid) = traffic(eps, endpoint, ops.drop_last());
        match ops.last() {
            Some(m) => if sent(mid, endpoint) is Ok {
                (got, taken.push(m), after_send(mid, endpoint, m))
            } else {
                (got, taken, mid)
            },
            None => match received(mid, endpoint) {
                Ok(Some(m)) => (got.push(m), taken, after_receive(mid, endpoint)),
                _ => (got, taken, mid),
            },
        }
    }
}

/// An endpoint is first in, first out, over any interleaving of sends and receives: what the
/// receives have delivered, followed by what still waits, is what waited at the start followed
/// by every message a send had accepted, in the order sent. So each receive answers the oldest
/// message not yet delivered, and a receive after them all answers the next one in line, or
/// nothing when all have been delivered.
pub proof fn lemma_endpoint_is_fifo(eps: EndpointsView, endpoint: u64, ops: Seq<Option<Message>>)
    requires
        names_endpoint(eps, endpoint),
    ensures
        ({
            let (got, taken, after) = traffic(eps, endpoint, ops);
            &&& names_endpoint(after, endpoint)
            &&& got + queue_of(after, endpoint) == queue_of(eps, endpoint) + taken
            &&& received(after, endpoint) == if got.len() == (queue_of(eps, endpoint)
                + taken).len() {
                Ok::<Option<Message>, IpcFault>(None)
            } else {
                Ok(Some((queue_of(eps, endpoint) + taken)[got.len() as int]))
            }
        }),
    decreases ops.len(),
{
    let (got, taken, after) = traffic(eps, endpoint, ops);
    if ops.len() > 0 {
        let rest = ops.drop_last();
        lemma_endpoint_is_fifo(eps, endpoint, rest);
        let (g0, t0, mid) = traffic(eps, endpoint, rest);
        let s = mid->Some_0;
        let k = endpoint_index(s, endpoint);
        let q = s[k].1;
        lemma_endpoint_index_first(s, endpoint);
        match ops.last() {
            Some(m) => {
                if sent(mid, endpoint) is Ok {
                    lemma_endpoint_index_stable(s, k, q.push(m), endpoint);
                    assert(g0 + q.push(m) =~= (g0 + q).push(m));
                    assert(queue_of(eps, endpoint) + t0.push(m) =~= (queue_of(eps, endpoint)
                        + t0).push(m));
                }
            },
            None => {
                if q.len() > 0 {
                    lemma_endpoint_index_stable(s, k, q.drop_first(), endpoint);
                    assert(g0.push(q[0]) + q.drop_first() =~= g0 + q);
                }
            },
        }
    }
    let s = after->Some_0;
    let k = endpoint_index(s, endpoint);
    let all = queue_of(eps, endpoint) + taken;
    assert(got + s[k].1 == all);
    assert(all.len() == got.len() + s[k].1.len());
    if s[k].1.len() > 0 {
        assert(all[got.len() as int] == (got + s[k].1)[got.len() as int]);
    }
}

} // verus!
