//! The memory: it hands each request to the controller of its channel,
//! drives the controllers cycle by cycle and collects what they finish.
use vstd::prelude::*;
use std::collections::VecDeque;
use crate::config::Config;
use crate::controller::{Controller, QueueType};
use crate::dram::{Dram, DramSpec, LevelTrait};
use crate::model::{addr_ok};
use crate::request::{ReqType, Request};

verus! {

/// How the slices of a linear address are assigned to the levels.
///
/// The name lists the levels from the most significant slice to the least
/// significant one.
#[derive(Debug, Clone, Copy, PartialEq, Eq, Structural)]
pub enum MappingType {
    ChRaBaRoCo,
    RoBaRaCoCh,
    CoRoBaRaCh,
    RoCoBaRaCh,
}

impl MappingType {
    /// The slicing order of the mapping: level indices (`0` is the channel,
    /// the last one the column), from the least significant slice of an
    /// address to the most significant one.
    pub open spec fn slice_sequence(self, bg: bool) -> Seq<usize> {
        if !bg {
            match self {
                MappingType::ChRaBaRoCo => seq![4usize, 3, 2, 1, 0],
                MappingType::RoBaRaCoCh => seq![0usize, 4, 1, 2, 3],
                MappingType::CoRoBaRaCh => seq![0usize, 1, 2, 3, 4],
                MappingType::RoCoBaRaCh => seq![0usize, 1, 2, 4, 3],
            }
        } else {
            match self {
                MappingType::ChRaBaRoCo => seq![5usize, 4, 3, 2, 1, 0],
                MappingType::RoBaRaCoCh => seq![0usize, 5, 1, 3, 2, 4],
                MappingType::CoRoBaRaCh => seq![0usize, 1, 3, 2, 4, 5],
                MappingType::RoCoBaRaCh => seq![0usize, 1, 3, 2, 5, 4],
            }
        }
    }

    /// The slicing order of the mapping, with a bank group level (`bg`) or
    /// without one.
    pub fn get_slice_sequence(&self, bg: bool) -> (r: &'static [usize])
        ensures
            r@ == self.slice_sequence(bg),
    {
        if !bg {
            match self {
                MappingType::ChRaBaRoCo => &[4, 3, 2, 1, 0],
                MappingType::RoBaRaCoCh => &[0, 4, 1, 2, 3],
                MappingType::CoRoBaRaCh => &[0, 1, 2, 3, 4],
                MappingType::RoCoBaRaCh => &[0, 1, 2, 4, 3],
            }
        } else {
            match self {
                MappingType::ChRaBaRoCo => &[5, 4, 3, 2, 1, 0],
                MappingType::RoBaRaCoCh => &[0, 5, 1, 3, 2, 4],
                MappingType::CoRoBaRaCh => &[0, 1, 3, 2, 4, 5],
                MappingType::RoCoBaRaCh => &[0, 1, 3, 2, 5, 4],
            }
        }
    }
}

/// A memory that takes requests, advances cycle by cycle and gives finished
/// requests back.
pub trait MemoryTrait {
    type T: DramSpec;

    /// The memory is consistent.
    spec fn inv(&self) -> bool;

    /// The device of the memory.
    spec fn spec_of(&self) -> Self::T;

    /// The mapping of addresses to coordinates.
    spec fn mapping(&self) -> MappingType;

    /// The cycles that have passed.
    spec fn cycle(&self) -> u64;

    /// The finished requests that have not been received yet, oldest first.
    spec fn returned(&self) -> Seq<Request>;

    /// The number of requests that wait in the queues of the controllers.
    spec fn pending(&self) -> nat;

    /// Every request that waits to be served has coordinates that the
    /// device has.
    spec fn servable(&self) -> bool;

    /// The memory has a controller for the channel of the request.
    spec fn takes(&self, req: Request) -> bool;

    /// The coordinates of the request, those that it comes with or those of
    /// its address, are coordinates that the device has.
    spec fn fits(&self, req: Request) -> bool;

    /// Advances the memory by one cycle.
    fn tick(&mut self)
        requires
            old(self).inv(),
            old(self).servable(),
            old(self).cycle() + 1 + old(self).spec_of().horizon() < u64::MAX,
        ensures
            final(self).inv(),
            final(self).servable(),
            final(self).cycle() == old(self).cycle() + 1,
            final(self).spec_of() == old(self).spec_of(),
            final(self).mapping() == old(self).mapping(),
            final(self).pending() <= old(self).pending(),
            forall|req: Request| #[trigger] final(self).takes(req) == old(self).takes(req),
            forall|req: Request| #[trigger] final(self).fits(req) == old(self).fits(req),
    ;

    /// Takes a request, or hands it back unchanged if the queue that it
    /// belongs to is full. A request whose coordinates the device does not
    /// have is taken like any other, but cannot be served.
    fn try_send(&mut self, req: Request) -> (r: Result<(), Request>)
        requires
            old(self).inv(),
            old(self).takes(req),
        ensures
            final(self).inv(),
            old(self).servable() && old(self).fits(req) ==> final(self).servable(),
            final(self).cycle() == old(self).cycle(),
            final(self).returned() == old(self).returned(),
            final(self).spec_of() == old(self).spec_of(),
            final(self).mapping() == old(self).mapping(),
            forall|req: Request| #[trigger] final(self).takes(req) == old(self).takes(req),
            forall|req: Request| #[trigger] final(self).fits(req) == old(self).fits(req),
            r matches Err(back) ==> back == req && final(self).pending() == old(self).pending(),
            r is Ok ==> final(self).pending() == old(self).pending() + 1,
    ;

    /// Gives the oldest finished request back, if there is one.
    fn try_recv(&mut self) -> (r: Option<Request>)
        requires
            old(self).inv(),
        ensures
            final(self).inv(),
            final(self).servable() == old(self).servable(),
            final(self).cycle() == old(self).cycle(),
            final(self).pending() == old(self).pending(),
            final(self).spec_of() == old(self).spec_of(),
            final(self).mapping() == old(self).mapping(),
            forall|req: Request| #[trigger] final(self).takes(req) == old(self).takes(req),
            forall|req: Request| #[trigger] final(self).fits(req) == old(self).fits(req),
            r == (if old(self).returned().len() > 0 {
                Some(old(self).returned()[0])
            } else {
                None
            }),
            final(self).returned() == (if old(self).returned().len() > 0 {
                old(self).returned().drop_first()
            } else {
                old(self).returned()
            }),
    ;

    /// The number of requests that wait in the queues of the controllers.
    fn pending_requests(&self) -> (r: usize)
        requires
            self.inv(),
            self.pending() <= usize::MAX,
        ensures
            r == self.pending(),
    ;

    fn get_spec(&self) -> (r: &Self::T)
        ensures
            *r == self.spec_of(),
    ;

    fn decode_addr(&self, addr: u64) -> (r: Vec<u64>)
        requires
            self.inv(),
        ensures
            r@ == self.spec_of().decoded_addr(addr, self.mapping()),
    ;

    /// Return the address represented by the coordinates; its six lowest
    /// bits are zero.
    fn encode_addr(&self, addr: &[u64]) -> (r: u64)
        requires
            self.inv(),
            addr@.len() == <Self::T as crate::dram::DramTypes>::Level::MAX_LEVEL,
        ensures
            r == self.spec_of().encoded_addr(addr@, self.mapping()),
    ;
}

/// A memory with one controller for each channel.
pub struct SimpleMemory<T: DramSpec> {
    config: Config,
    spec: T,
    clk: u64,
    controllers: Vec<Controller<T>>,
    ret_queue: VecDeque<Request>,
}

/// The number of requests that wait in the queues of the first `n`
/// controllers.
pub open spec fn waiting<T: DramSpec>(controllers: Seq<Controller<T>>, n: nat) -> nat
    decreases n,
{
    if n == 0 {
        0
    } else {
        waiting(controllers, (n - 1) as nat) + controllers[n - 1].waiting()
    }
}

/// The requests that the first `n` controllers release in the cycle `clk`:
/// all that each of them has finished by the end of its cycle, controller
/// after controller, and of each controller the oldest first.
pub open spec fn released<T: DramSpec>(
    controllers: Seq<Controller<T>>,
    spec: T,
    clk: u64,
    n: nat,
) -> Seq<Request>
    decreases n,
{
    if n == 0 {
        Seq::empty()
    } else {
        released(controllers, spec, clk, (n - 1) as nat) + controllers[n
            - 1].finished_after_tick(spec, clk)
    }
}

/// The number of waiting requests counts only the queues of the
/// controllers counted.
pub proof fn lemma_waiting_same<T: DramSpec>(
    a: Seq<Controller<T>>,
    b: Seq<Controller<T>>,
    n: nat,
)
    requires
        n <= a.len(),
        n <= b.len(),
        forall|i: int| 0 <= i < n ==> (#[trigger] a[i]).waiting() == b[i].waiting(),
    ensures
        waiting(a, n) == waiting(b, n),
    decreases n,
{
    if n > 0 {
        lemma_waiting_same(a, b, (n - 1) as nat);
    }
}

/// One more request in a queue of one controller is one more request
/// waiting.
pub proof fn lemma_waiting_one_more<T: DramSpec>(
    a: Seq<Controller<T>>,
    b: Seq<Controller<T>>,
    n: nat,
    at: int,
)
    requires
        n <= a.len(),
        a.len() == b.len(),
        0 <= at < a.len(),
        forall|i: int| 0 <= i < a.len() && i != at ==> (#[trigger] a[i]).waiting() == b[i].waiting(),
        a[at].waiting() + 1 == b[at].waiting(),
    ensures
        waiting(b, n) == waiting(a, n) + (if at < n {
            1nat
        } else {
            0nat
        }),
    decreases n,
{
    if n > 0 {
        lemma_waiting_one_more(a, b, (n - 1) as nat, at);
    }
}

impl<T: DramSpec> SimpleMemory<T> {
    /// The controllers, one for each channel.
    pub closed spec fn controllers(&self) -> Seq<Controller<T>> {
        self.controllers@
    }

    /// The configuration that the memory was made with.
    pub closed spec fn config(&self) -> Config {
        self.config
    }

    /// The device has channels, and the memory has a controller for each.
    pub open spec fn has_channels(&self) -> bool {
        0 < self.spec_of().addr_size()[0] <= self.controllers().len()
    }

    /// The device has a node at every level for every coordinate that an
    /// address can have: no level above the row is empty.
    pub open spec fn populated(&self) -> bool {
        forall|l: int|
            0 <= l < T::Level::row_index() ==> (#[trigger] self.spec_of().addr_size()[l]) > 0
    }

    /// Whether this memory is `before` after one cycle: every controller
    /// has taken the cycle and then released all its finished requests,
    /// which have joined those that wait to be received, in the order of the
    /// channels and of each channel the oldest first. No clock of any
    /// device has gone back.
    pub open spec fn ticked_from(&self, before: &Self) -> bool {
        &&& self.controllers().len() == before.controllers().len()
        &&& forall|i: int|
            0 <= i < before.controllers().len() ==> {
                let old_one = #[trigger] before.controllers()[i];
                let new_one = self.controllers()[i];
                &&& old_one.ticked(&new_one, before.spec_of(), self.cycle(), Seq::empty())
                &&& old_one.channel@.no_clock_after(new_one.channel@)
                &&& old_one.within_capacity() ==> new_one.within_capacity()
            }
        &&& self.returned() == before.returned() + released(
            before.controllers(),
            before.spec_of(),
            self.cycle(),
            before.controllers().len(),
        )
    }

    /// Whether `after_all` is this memory after it was asked to take `req`
    /// and answered `r`. The request goes to the controller of its channel,
    /// which is the first of its coordinates: those that it came with if it
    /// was decoded already, else those of its address. It joins the read
    /// queue or the write queue there, decoded, unless that queue is full.
    /// Nothing else changes.
    pub open spec fn sent(&self, after_all: &Self, req: Request, r: Result<(), Request>) -> bool {
        self.routed(
            after_all,
            req,
            r,
            if req.done_setup {
                req.addr_vec@
            } else {
                self.spec_of().decoded_addr(req.addr, self.mapping())
            },
        )
    }

    /// Whether `after_all` is this memory after it was asked to take `req`
    /// with the coordinates `addr_vec` and answered `r`.
    pub open spec fn routed(
        &self,
        after_all: &Self,
        req: Request,
        r: Result<(), Request>,
        addr_vec: Seq<u64>,
    ) -> bool {
        let channel = addr_vec[0] as int;
        &&& after_all.controllers().len() == self.controllers().len()
        &&& 0 <= channel < self.controllers().len()
        &&& forall|i: int|
            0 <= i < self.controllers().len() && i != channel ==> after_all.controllers()[i]
                == self.controllers()[i]
        &&& self.controllers()[channel].asked(&after_all.controllers()[channel], req, r, addr_vec)
    }

    /// A memory of the device `spec` with as many channels as `config`
    /// asks for: no cycle has passed, nothing waits and nothing is
    /// finished.
    pub fn new(config: Config, spec: T) -> (r: Self)
        requires
            spec.wf(),
        ensures
            r.inv(),
            r.spec_of() == spec,
            r.config() == config,
            r.mapping() == config.mapping_type,
            r.cycle() == 0,
            r.returned() == Seq::<Request>::empty(),
            r.pending() == 0,
            r.controllers().len() == config.channels,
            forall|i: int|
                0 <= i < config.channels ==> {
                    let c = #[trigger] r.controllers()[i];
                    &&& c.channel@ == crate::model::DramModel::<T>::fresh(
                        spec,
                        c.channel.level,
                        i as nat,
                    )
                    &&& c.channel.level.index() == 0
                    &&& c.is_fresh()
                },
            r.servable(),
    {
        let mut controllers: Vec<Controller<T>> = Vec::new();
        proof {
            T::Level::lemma_level_zero();
        }
        let mut i: usize = 0;
        while i < config.channels
            invariant
                i <= config.channels,
                spec.wf(),
                0 < T::Level::row_index(),
                controllers@.len() == i,
                waiting(controllers@, i as nat) == 0,
                forall|k: int|
                    0 <= k < i ==> {
                        let c = #[trigger] controllers@[k];
                        &&& c.wf(spec)
                        &&& c.channel@ == crate::model::DramModel::<T>::fresh(
                            spec,
                            c.channel.level,
                            k as nat,
                        )
                        &&& c.channel.level.index() == 0
                        &&& c.is_fresh()
                        &&& c.channel@.history_until(0)
                    },
            decreases config.channels - i,
        {
            let dram = Dram::new(&spec, T::Level::channel(), i);
            proof {
                crate::clocks::lemma_fresh_history(spec, dram.level, i as nat, 0);
            }
            let controller = Controller::new(&config, dram);
            let ghost before = controllers@;
            controllers.push(controller);
            proof {
                lemma_waiting_same(before, controllers@, i as nat);
            }
            i += 1;
        }
        SimpleMemory { config, spec, clk: 0, controllers, ret_queue: VecDeque::new() }
    }

    pub fn get_cycle(&self) -> (r: u64)
        ensures
            r == self.cycle(),
    {
        self.clk
    }
}

impl<T: DramSpec> MemoryTrait for SimpleMemory<T> {
    type T = T;

    /// The device is consistent; there is a controller for each channel of
    /// the configuration, with a device tree of the device; the queues for
    /// reads and for writes hold no more than they have room for; and the
    /// histories of the devices are in the order of time and reach no
    /// farther than the cycles that have passed.
    open spec fn inv(&self) -> bool {
        &&& self.spec_of().wf()
        &&& self.controllers().len() == self.config().channels
        &&& forall|i: int|
            0 <= i < self.controllers().len() ==> {
                &&& (#[trigger] self.controllers()[i]).device_ok(self.spec_of())
                &&& self.controllers()[i].within_capacity()
                &&& self.controllers()[i].channel@.history_until(self.cycle())
            }
    }

    closed spec fn spec_of(&self) -> T {
        self.spec
    }

    open spec fn mapping(&self) -> MappingType {
        self.config().mapping_type
    }

    closed spec fn cycle(&self) -> u64 {
        self.clk
    }

    closed spec fn returned(&self) -> Seq<Request> {
        self.ret_queue@
    }

    open spec fn pending(&self) -> nat {
        waiting(self.controllers(), self.controllers().len())
    }

    open spec fn servable(&self) -> bool {
        forall|i: int|
            0 <= i < self.controllers().len() ==> (#[trigger] self.controllers()[i]).servable(
                self.spec_of(),
            )
    }

    open spec fn takes(&self, req: Request) -> bool {
        if req.done_setup {
            req.addr_vec@.len() > 0 && req.addr_vec@[0] < self.controllers().len()
        } else {
            self.has_channels()
        }
    }

    open spec fn fits(&self, req: Request) -> bool {
        if req.done_setup {
            addr_ok(self.spec_of(), req.addr_vec@)
        } else {
            self.populated()
        }
    }

    /// Advances the memory by one cycle: every controller takes the cycle
    /// and then releases all its finished requests.
    fn tick(&mut self)
        ensures
            final(self).ticked_from(old(self)),
    {
        proof {
            assert forall|k: int| 0 <= k < self.controllers@.len() implies (
            #[trigger] self.controllers@[k]).channel@.history_until((self.clk + 1) as u64) by {
                crate::clocks::lemma_no_record_after_later(
                    self.controllers@[k].channel@,
                    self.clk,
                    (self.clk + 1) as u64,
                );
            }
        }
        self.clk += 1;
        let n = self.controllers.len();
        let ghost start = self.controllers@;
        let ghost returned = self.ret_queue@;
        let mut i: usize = 0;
        while i < n
            invariant
                i <= n,
                n == self.controllers@.len(),
                n == start.len(),
                start == old(self).controllers@,
                returned == old(self).ret_queue@,
                self.spec == old(self).spec,
                self.config == old(self).config,
                self.clk == old(self).clk + 1,
                self.clk + self.spec.horizon() < u64::MAX,
                self.spec.wf(),
                forall|k: int| 0 <= k < n ==> (#[trigger] self.controllers@[k]).wf(self.spec),
                forall|k: int|
                    0 <= k < n ==> (#[trigger] self.controllers@[k]).channel@.history_until(self.clk),
                forall|k: int| 0 <= k < n ==> (#[trigger] start[k]).within_capacity(),
                forall|k: int| i <= k < n ==> self.controllers@[k] == start[k],
                forall|k: int|
                    0 <= k < i ==> {
                        &&& (#[trigger] start[k]).ticked(
                            &self.controllers@[k],
                            self.spec,
                            self.clk,
                            Seq::empty(),
                        )
                        &&& start[k].channel@.no_clock_after(self.controllers@[k].channel@)
                        &&& start[k].within_capacity() ==> self.controllers@[k].within_capacity()
                    },
                self.ret_queue@ == returned + released(start, self.spec, self.clk, i as nat),
                forall|k: int| 0 <= k < n ==> (#[trigger] self.controllers@[k]).waiting() <= start[k].waiting(),
            decreases n - i,
        {
            let ghost others = self.controllers@;
            self.controllers[i].tick(&self.spec, self.clk);
            self.controllers[i].drain_finished(&mut self.ret_queue);
            proof {
                assert(forall|k: int| 0 <= k < n && k != i ==> self.controllers@[k] == others[k]);
                assert(self.ret_queue@ =~= returned + released(
                    start,
                    self.spec,
                    self.clk,
                    (i + 1) as nat,
                ));
            }
            i += 1;
        }
        proof {
            lemma_waiting_no_more(self.controllers@, start, n as nat);
        }
    }

    /// Takes a request: one that is not decoded yet is decoded first, and
    /// the controller of its channel takes it into its read queue or its
    /// write queue. If that queue is full, the request comes back
    /// unchanged.
    fn try_send(&mut self, req: Request) -> (r: Result<(), Request>)
        ensures
            old(self).sent(final(self), req, r),
    {
        proof {
            self.spec.lemma_tables();
            T::Level::lemma_level_zero();
        }
        let ghost start = self.controllers@;
        if req.done_setup {
            let channel = req.addr_vec[0] as usize;
            let ghost sent = req;
            let r = self.controllers[channel].try_enqueue(req);
            proof {
                let after = self.controllers@[channel as int];
                if r is Ok {
                    let queue = match sent.req_type {
                        ReqType::Read => QueueType::Read,
                        ReqType::Write => QueueType::Write,
                    };
                    assert(after.queue_of(queue).drop_last() =~= start[channel as int].queue_of(
                        queue,
                    ));
                    lemma_waiting_one_more(start, self.controllers@, start.len(), channel as int);
                } else {
                    lemma_waiting_same(start, self.controllers@, start.len());
                }
            }
            r
        } else {
            let decoded = self.spec.decode_addr(req.addr, &self.config.mapping_type);
            proof {
                self.spec.lemma_decoded_addr(req.addr, self.config.mapping_type);
            }
            let channel = decoded[0] as usize;
            let full = match req.req_type {
                ReqType::Read => self.controllers[channel].read_queue.full(),
                ReqType::Write => self.controllers[channel].write_queue.full(),
            };
            if full {
                proof {
                    lemma_waiting_same(start, self.controllers@, start.len());
                }
                return Err(req);
            }
            let mut req = req;
            req.addr_vec = decoded;
            req.done_setup = true;
            let ghost sent = req;
            let r = self.controllers[channel].try_enqueue(req);
            proof {
                let after = self.controllers@[channel as int];
                let queue = match sent.req_type {
                    ReqType::Read => QueueType::Read,
                    ReqType::Write => QueueType::Write,
                };
                assert(after.queue_of(queue).drop_last() =~= start[channel as int].queue_of(queue));
                lemma_waiting_one_more(start, self.controllers@, start.len(), channel as int);
            }
            r
        }
    }

    fn try_recv(&mut self) -> (r: Option<Request>)
        ensures
            final(self).controllers() == old(self).controllers(),
    {
        self.ret_queue.pop_front()
    }

    fn pending_requests(&self) -> (r: usize) {
        let n = self.controllers.len();
        let mut total: usize = 0;
        let mut i: usize = 0;
        while i < n
            invariant
                i <= n,
                n == self.controllers@.len(),
                total == waiting(self.controllers@, i as nat),
                waiting(self.controllers@, n as nat) <= usize::MAX,
            decreases n - i,
        {
            proof {
                lemma_waiting_grows(self.controllers@, (i + 1) as nat, n as nat);
            }
            let c = &self.controllers[i];
            total = total + c.read_queue.size() + c.write_queue.size() + c.act_queue.size()
                + c.other_queue.size();
            i += 1;
        }
        total
    }

    fn get_spec(&self) -> (r: &T) {
        &self.spec
    }

    fn decode_addr(&self, addr: u64) -> (r: Vec<u64>) {
        self.spec.decode_addr(addr, &self.config.mapping_type)
    }

    fn encode_addr(&self, addr: &[u64]) -> (r: u64) {
        self.spec.encode_addr(addr, &self.config.mapping_type)
    }
}

/// Where no controller has more requests waiting, no more are waiting in
/// all.
pub proof fn lemma_waiting_no_more<T: DramSpec>(
    a: Seq<Controller<T>>,
    b: Seq<Controller<T>>,
    n: nat,
)
    requires
        n <= a.len(),
        n <= b.len(),
        forall|i: int| 0 <= i < n ==> (#[trigger] a[i]).waiting() <= b[i].waiting(),
    ensures
        waiting(a, n) <= waiting(b, n),
    decreases n,
{
    if n > 0 {
        lemma_waiting_no_more(a, b, (n - 1) as nat);
    }
}

/// Fewer controllers hold no more waiting requests than more of them.
pub proof fn lemma_waiting_grows<T: DramSpec>(controllers: Seq<Controller<T>>, fewer: nat, more: nat)
    requires
        fewer <= more,
    ensures
        waiting(controllers, fewer) <= waiting(controllers, more),
    decreases more,
{
    if fewer < more {
        lemma_waiting_grows(controllers, fewer, (more - 1) as nat);
    }
}

} // verus!
