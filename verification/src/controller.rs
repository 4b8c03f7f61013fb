//! The controller of one channel: its request queues, its switching between
//! reads and writes, and the one command that it may issue in each cycle.
use vstd::prelude::*;
use std::collections::VecDeque;
use crate::config::Config;
use crate::dram::{CommandTrait, Dram, DramSpec, DramTypes};
use crate::model::{addr_ok, DramModel};
use crate::refresh::Refresh;
use crate::request::{ReqType, Request};
use crate::scheduler::{Scheduler, SchedulerType};

verus! {

/// A bounded queue of requests.
pub struct Queue {
    pub queue: VecDeque<Request>,
    pub max: usize,
}

impl Default for Queue {
    /// An empty queue for 512 requests.
    fn default() -> (r: Self)
        ensures
            r.queue@ == Seq::<Request>::empty(),
            r.max == 512,
    {
        Self { queue: VecDeque::new(), max: 512 }
    }
}

/// The queues of a controller from which requests are served.
#[derive(Debug, Clone, Copy, PartialEq, Eq, Structural)]
pub enum QueueType {
    Read,
    Write,
    Act,
    Other,
}

impl Queue {
    /// An empty queue for `max` requests.
    pub fn new(max: usize) -> (r: Self)
        ensures
            r.queue@ == Seq::<Request>::empty(),
            r.max == max,
    {
        Self { queue: VecDeque::new(), max }
    }

    pub fn size(&self) -> (r: usize)
        ensures
            r == self.queue@.len(),
    {
        self.queue.len()
    }

    pub fn full(&self) -> (r: bool)
        ensures
            r == (self.queue@.len() >= self.max),
    {
        self.queue.len() >= self.max
    }
}

/// Whether a controller prefers to serve reads or writes.
#[derive(Debug, Clone, Copy, PartialEq, Eq, Structural)]
pub enum RunningMode {
    Reading,
    Writing,
}

/// A share of the capacity of a queue: `num` parts of `den`.
#[derive(Debug, Clone, Copy, PartialEq, Eq, Structural)]
pub struct Watermark {
    pub num: usize,
    pub den: usize,
}

impl Watermark {
    /// Whether `size` is more than the share of `max`.
    pub open spec fn exceeded_by(self, size: nat, max: nat) -> bool {
        size * self.den > self.num * max
    }

    /// Whether `size` is less than the share of `max`.
    pub open spec fn undershot_by(self, size: nat, max: nat) -> bool {
        size * self.den < self.num * max
    }

    /// Whether `size` is more than the share of `max`.
    pub fn is_exceeded_by(&self, size: usize, max: usize) -> (r: bool)
        ensures
            r == self.exceeded_by(size as nat, max as nat),
    {
        assert(size * self.den <= usize::MAX * usize::MAX) by (nonlinear_arith)
            requires
                size <= usize::MAX,
                self.den <= usize::MAX,
        ;
        assert(self.num * max <= usize::MAX * usize::MAX) by (nonlinear_arith)
            requires
                max <= usize::MAX,
                self.num <= usize::MAX,
        ;
        (size as u128) * (self.den as u128) > (self.num as u128) * (max as u128)
    }

    /// Whether `size` is less than the share of `max`.
    pub fn is_undershot_by(&self, size: usize, max: usize) -> (r: bool)
        ensures
            r == self.undershot_by(size as nat, max as nat),
    {
        assert(size * self.den <= usize::MAX * usize::MAX) by (nonlinear_arith)
            requires
                size <= usize::MAX,
                self.den <= usize::MAX,
        ;
        assert(self.num * max <= usize::MAX * usize::MAX) by (nonlinear_arith)
            requires
                max <= usize::MAX,
                self.num <= usize::MAX,
        ;
        (size as u128) * (self.den as u128) < (self.num as u128) * (max as u128)
    }
}

/// A command that a controller issues for a request of one of its queues.
pub struct Issue<T: DramTypes> {
    /// The queue that holds the request.
    pub queue: QueueType,
    /// The position of the request in the queue.
    pub index: nat,
    pub cmd: T::Command,
}

/// The controller of one channel.
pub struct Controller<T: DramTypes> {
    pub channel: Dram<T>,
    pub scheduler: Scheduler,
    pub refresh: Refresh,
    pub read_queue: Queue,
    pub write_queue: Queue,
    /// The requests whose row has been activated for them.
    pub act_queue: Queue,
    /// The requests of the maintenance of the channel.
    pub other_queue: Queue,
    /// The reads whose data is on its way.
    pub pending_queue: VecDeque<Request>,
    pub finished_queue: VecDeque<Request>,
    pub running_mode: RunningMode,
    /// Above this share of the write queue, writes go first.
    pub wr_hight_watermark: Watermark,
    /// Below this share of the write queue, reads go first.
    pub wr_low_watermark: Watermark,
}

/// Every request of the queue has coordinates that the device has.
pub open spec fn requests_ok<T: DramSpec>(spec: T, queue: Seq<Request>) -> bool {
    forall|i: int| 0 <= i < queue.len() ==> addr_ok(spec, (#[trigger] queue[i]).addr_vec@)
}

/// The pending reads after the one at the head has been released, if its
/// data has arrived by `clk`.
pub open spec fn drained_pending(pending: Seq<Request>, clk: u64) -> Seq<Request> {
    if pending.len() > 0 && pending[0].finish_time <= clk {
        pending.drop_first()
    } else {
        pending
    }
}

/// The finished requests after the pending read at the head has been
/// released to them, if its data has arrived by `clk`.
pub open spec fn drained_finished(pending: Seq<Request>, finished: Seq<Request>, clk: u64) -> Seq<
    Request,
> {
    if pending.len() > 0 && pending[0].finish_time <= clk {
        finished.push(pending[0])
    } else {
        finished
    }
}

/// A queue after a request has moved on: the request leaves the queue that
/// holds it at `index` if `leaves` is set, and joins the queue of the
/// activated requests if `joins` is set.
pub open spec fn moved_on(
    queue: Seq<Request>,
    queue_type: QueueType,
    from: QueueType,
    index: int,
    req: Request,
    leaves: bool,
    joins: bool,
) -> Seq<Request> {
    let rest = if leaves && from == queue_type {
        queue.remove(index)
    } else {
        queue
    };
    if joins && queue_type == QueueType::Act {
        rest.push(req)
    } else {
        rest
    }
}

impl<T: DramSpec> Controller<T> {
    /// The device tree is one of the device that `spec` describes.
    pub open spec fn device_ok(&self, spec: T) -> bool {
        &&& spec.wf()
        &&& self.channel@.wf(spec)
    }

    /// Every request that waits to be served has coordinates that the
    /// device has.
    pub open spec fn servable(&self, spec: T) -> bool {
        &&& requests_ok(spec, self.read_queue.queue@)
        &&& requests_ok(spec, self.write_queue.queue@)
        &&& requests_ok(spec, self.act_queue.queue@)
        &&& requests_ok(spec, self.other_queue.queue@)
    }

    /// The device tree is one of the device, and every queued request has
    /// coordinates that the device has.
    pub open spec fn wf(&self, spec: T) -> bool {
        &&& self.device_ok(spec)
        &&& self.servable(spec)
    }

    /// The queues that take requests from outside hold no more requests
    /// than they have room for.
    pub open spec fn within_capacity(&self) -> bool {
        &&& self.read_queue.queue@.len() <= self.read_queue.max
        &&& self.write_queue.queue@.len() <= self.write_queue.max
    }

    /// The requests of the queue `queue_type`.
    pub open spec fn queue_of(&self, queue_type: QueueType) -> Seq<Request> {
        match queue_type {
            QueueType::Read => self.read_queue.queue@,
            QueueType::Write => self.write_queue.queue@,
            QueueType::Act => self.act_queue.queue@,
            QueueType::Other => self.other_queue.queue@,
        }
    }

    /// The mode in which the next command is chosen. A controller that reads
    /// turns to writing when there is nothing to read or when the write
    /// queue is filled beyond the high watermark. One that writes turns to
    /// reading when there is something to read and the write queue is
    /// filled less than the low watermark.
    pub open spec fn next_mode(&self) -> RunningMode {
        let reads = self.read_queue.queue@.len();
        let writes = self.write_queue.queue@.len();
        let max = self.write_queue.max as nat;
        match self.running_mode {
            RunningMode::Reading => if reads == 0 || self.wr_hight_watermark.exceeded_by(
                writes,
                max,
            ) {
                RunningMode::Writing
            } else {
                RunningMode::Reading
            },
            RunningMode::Writing => if reads > 0 && self.wr_low_watermark.undershot_by(writes, max) {
                RunningMode::Reading
            } else {
                RunningMode::Writing
            },
        }
    }

    /// The queue that is served in mode `mode` when no activated request
    /// can go on: maintenance first, then reads or writes by the mode.
    pub open spec fn best_queue(&self, mode: RunningMode) -> QueueType {
        if self.other_queue.queue@.len() != 0 {
            QueueType::Other
        } else {
            match mode {
                RunningMode::Reading => QueueType::Read,
                RunningMode::Writing => QueueType::Write,
            }
        }
    }

    /// The command that the queue `queue_type` would issue at `clk`: the one
    /// that the request picked by the scheduler needs next, if the device is
    /// ready for it.
    pub open spec fn candidate(&self, spec: T, queue_type: QueueType, clk: u64) -> Option<
        Issue<T>,
    > {
        let queue = self.queue_of(queue_type);
        match self.scheduler.best(queue, self.channel@) {
            Some(index) => {
                let req = queue[index as int];
                let cmd = self.channel@.decoded(T::first_cmd(req.req_type), req.addr_vec@);
                if self.channel@.ready(spec, cmd, req.addr_vec@, clk) {
                    Some(Issue { queue: queue_type, index, cmd })
                } else {
                    None
                }
            },
            None => None,
        }
    }

    /// The one command, if any, that a controller in mode `mode` issues at
    /// `clk`: that of an activated request if one is ready, else that of
    /// the queue which the mode prefers.
    pub open spec fn choice(&self, spec: T, mode: RunningMode, clk: u64) -> Option<Issue<T>> {
        match self.candidate(spec, QueueType::Act, clk) {
            Some(issue) => Some(issue),
            None => self.candidate(spec, self.best_queue(mode), clk),
        }
    }

    /// The request that `issue` is issued for.
    pub open spec fn request_of(&self, issue: Issue<T>) -> Request {
        self.queue_of(issue.queue)[issue.index as int]
    }

    /// Whether `issue` is the last command of its request.
    pub open spec fn completes(&self, issue: Issue<T>) -> bool {
        issue.cmd == T::first_cmd(self.request_of(issue).req_type)
    }

    /// The device tree after `issue` at `clk`.
    pub open spec fn channel_after(&self, spec: T, issue: Option<Issue<T>>, clk: u64) -> DramModel<
        T,
    > {
        match issue {
            Some(issue) => self.channel@.after_issue(
                spec,
                issue.cmd,
                self.request_of(issue).addr_vec@,
                clk,
            ),
            None => self.channel@,
        }
    }

    /// The queue `queue_type` after `issue`: a request that is complete or
    /// activated leaves its queue, and an activated one that is not complete
    /// joins the activated requests.
    pub open spec fn queue_after(&self, queue_type: QueueType, issue: Option<Issue<T>>) -> Seq<
        Request,
    > {
        let queue = self.queue_of(queue_type);
        match issue {
            Some(issue) => moved_on(
                queue,
                queue_type,
                issue.queue,
                issue.index as int,
                self.request_of(issue),
                self.completes(issue) || issue.cmd.activates(),
                !self.completes(issue) && issue.cmd.activates(),
            ),
            None => queue,
        }
    }

    /// The pending reads after `issue` at `clk`, given those that were
    /// pending before: a read that is complete joins them, and is due when
    /// the read latency has passed.
    pub open spec fn pending_after(
        &self,
        spec: T,
        pending: Seq<Request>,
        issue: Option<Issue<T>>,
        clk: u64,
    ) -> Seq<Request> {
        match issue {
            Some(issue) => if self.completes(issue) && self.request_of(issue).req_type
                == ReqType::Read {
                pending.push(
                    Request {
                        finish_time: (clk + spec.read_latency()) as u64,
                        ..self.request_of(issue)
                    },
                )
            } else {
                pending
            },
            None => pending,
        }
    }

    /// The finished requests after `issue` at `clk`, given those that were
    /// finished before: a write that is complete joins them at once.
    pub open spec fn finished_after(
        &self,
        finished: Seq<Request>,
        issue: Option<Issue<T>>,
        clk: u64,
    ) -> Seq<Request> {
        match issue {
            Some(issue) => if self.completes(issue) && self.request_of(issue).req_type
                == ReqType::Write {
                finished.push(Request { finish_time: clk, ..self.request_of(issue) })
            } else {
                finished
            },
            None => finished,
        }
    }

    /// The finished requests after the cycle `clk`.
    pub open spec fn finished_after_tick(&self, spec: T, clk: u64) -> Seq<Request> {
        self.finished_after(
            drained_finished(self.pending_queue@, self.finished_queue@, clk),
            self.choice(spec, self.next_mode(), clk),
            clk,
        )
    }

    /// Whether `after` is this controller after the cycle `clk`, but for
    /// its finished requests, which are `finished`: the mode is switched,
    /// the pending read at the head is released if it is due, and the one
    /// command chosen, if there is one, has been issued to the device and
    /// has moved its request on.
    pub open spec fn ticked(&self, after: &Self, spec: T, clk: u64, finished: Seq<Request>) -> bool {
        let issue = self.choice(spec, self.next_mode(), clk);
        &&& after.same_setup(self)
        &&& after.running_mode == self.next_mode()
        &&& after.channel@ == self.channel_after(spec, issue, clk)
        &&& after.read_queue.queue@ == self.queue_after(QueueType::Read, issue)
        &&& after.write_queue.queue@ == self.queue_after(QueueType::Write, issue)
        &&& after.act_queue.queue@ == self.queue_after(QueueType::Act, issue)
        &&& after.other_queue.queue@ == self.queue_after(QueueType::Other, issue)
        &&& after.pending_queue@ == self.pending_after(
            spec,
            drained_pending(self.pending_queue@, clk),
            issue,
            clk,
        )
        &&& after.finished_queue@ == finished
        &&& after.waiting() + self.completed(issue) == self.waiting()
    }

    /// The number of requests that `issue` completes: one if it is the last
    /// command of its request, else none.
    pub open spec fn completed(&self, issue: Option<Issue<T>>) -> nat {
        match issue {
            Some(issue) => if self.completes(issue) {
                1
            } else {
                0
            },
            None => 0,
        }
    }

    /// At most one command is issued in a cycle: the device tree after the
    /// cycle is the tree before it, or that tree after the issue of the one
    /// command chosen.
    pub proof fn lemma_single_issue(&self, after: &Self, spec: T, clk: u64, finished: Seq<Request>)
        requires
            self.ticked(after, spec, clk, finished),
        ensures
            after.channel@ == self.channel@ || exists|cmd: T::Command, addr_vec: Seq<u64>|
                after.channel@ == #[trigger] self.channel@.after_issue(spec, cmd, addr_vec, clk),
    {
        match self.choice(spec, self.next_mode(), clk) {
            Some(issue) => {
                assert(after.channel@ == self.channel@.after_issue(
                    spec,
                    issue.cmd,
                    self.request_of(issue).addr_vec@,
                    clk,
                ));
            },
            None => {},
        }
    }

    /// A command is issued only when the device is ready for it, and it is
    /// the command that its request needs next: what a cycle chooses is, for
    /// a request of the chosen queue, the command that the state of the
    /// device asks for on the way to the bank, and no node on the way to the
    /// scope of that command makes it wait beyond the cycle.
    pub proof fn lemma_issues_only_what_is_ready(&self, spec: T, clk: u64)
        ensures
            match self.choice(spec, self.next_mode(), clk) {
                Some(issue) => {
                    let req = self.request_of(issue);
                    &&& issue.index < self.queue_of(issue.queue).len()
                    &&& issue.cmd == self.channel@.decoded(T::first_cmd(req.req_type), req.addr_vec@)
                    &&& self.channel@.ready(spec, issue.cmd, req.addr_vec@, clk)
                },
                None => true,
            },
    {
    }

    /// Reads do not starve while few writes wait: a controller that writes,
    /// has something to read and nothing to write, turns to reading in the
    /// next cycle, provided that the low watermark leaves room for any
    /// write at all.
    pub proof fn lemma_reads_not_starved(&self)
        requires
            self.running_mode == RunningMode::Writing,
            self.write_queue.queue@.len() == 0,
            self.read_queue.queue@.len() > 0,
            self.wr_low_watermark.num * self.write_queue.max > 0,
        ensures
            self.next_mode() == RunningMode::Reading,
    {
    }

    /// The queue `queue_type` with its capacity.
    pub open spec fn queue_struct(&self, queue_type: QueueType) -> Queue {
        match queue_type {
            QueueType::Read => self.read_queue,
            QueueType::Write => self.write_queue,
            QueueType::Act => self.act_queue,
            QueueType::Other => self.other_queue,
        }
    }

    /// All of a controller but its queues of requests to serve.
    pub open spec fn same_setup_but_queues(&self, other: &Self) -> bool {
        &&& self.channel == other.channel
        &&& self.scheduler == other.scheduler
        &&& self.refresh == other.refresh
        &&& self.pending_queue == other.pending_queue
        &&& self.finished_queue == other.finished_queue
        &&& self.running_mode == other.running_mode
        &&& self.wr_hight_watermark == other.wr_hight_watermark
        &&& self.wr_low_watermark == other.wr_low_watermark
    }

    /// Whether `after` is this controller after it was asked to take `req`
    /// with the coordinates `addr_vec` and answered `r`: the request has
    /// joined the queue of its type, decoded, if the queue had room, and
    /// nothing else has changed.
    pub open spec fn asked(
        &self,
        after: &Self,
        req: Request,
        r: Result<(), Request>,
        addr_vec: Seq<u64>,
    ) -> bool {
        let queue = if req.req_type == ReqType::Read {
            QueueType::Read
        } else {
            QueueType::Write
        };
        let before = self.queue_of(queue);
        &&& r is Ok <==> before.len() < self.queue_struct(queue).max
        &&& after.same_setup(self)
        &&& after.channel == self.channel
        &&& after.running_mode == self.running_mode
        &&& after.pending_queue == self.pending_queue
        &&& after.finished_queue == self.finished_queue
        &&& queue != QueueType::Read ==> after.read_queue == self.read_queue
        &&& queue != QueueType::Write ==> after.write_queue == self.write_queue
        &&& after.act_queue == self.act_queue
        &&& after.other_queue == self.other_queue
        &&& r is Err ==> after.queue_of(queue) == before
        &&& r is Ok ==> {
            let sent = after.queue_of(queue).last();
            &&& after.queue_of(queue).len() == before.len() + 1
            &&& after.queue_of(queue).drop_last() == before
            &&& sent.addr == req.addr
            &&& sent.req_type == req.req_type
            &&& sent.arrival_time == req.arrival_time
            &&& sent.finish_time == req.finish_time
            &&& sent.done_setup
            &&& sent.addr_vec@ == addr_vec
        }
    }

    /// The parts of a controller that no operation changes.
    pub open spec fn same_setup(&self, other: &Self) -> bool {
        &&& self.scheduler == other.scheduler
        &&& self.refresh == other.refresh
        &&& self.read_queue.max == other.read_queue.max
        &&& self.write_queue.max == other.write_queue.max
        &&& self.act_queue.max == other.act_queue.max
        &&& self.other_queue.max == other.other_queue.max
        &&& self.wr_hight_watermark == other.wr_hight_watermark
        &&& self.wr_low_watermark == other.wr_low_watermark
    }

    /// The controller is as it is made: it reads, serves in the order of
    /// arrival, has empty queues for 512 requests each, and its watermarks
    /// are at eight tenths and two tenths of the write queue.
    pub open spec fn is_fresh(&self) -> bool {
        &&& self.scheduler.scheduler_type == SchedulerType::FCFS
        &&& self.read_queue.queue@.len() == 0 && self.read_queue.max == 512
        &&& self.write_queue.queue@.len() == 0 && self.write_queue.max == 512
        &&& self.act_queue.queue@.len() == 0 && self.act_queue.max == 512
        &&& self.other_queue.queue@.len() == 0 && self.other_queue.max == 512
        &&& self.pending_queue@.len() == 0
        &&& self.finished_queue@.len() == 0
        &&& self.running_mode == RunningMode::Reading
        &&& self.wr_hight_watermark == (Watermark { num: 8, den: 10 })
        &&& self.wr_low_watermark == (Watermark { num: 2, den: 10 })
    }

    /// The number of requests that wait in the queues to be served.
    pub open spec fn waiting(&self) -> nat {
        self.read_queue.queue@.len() + self.write_queue.queue@.len() + self.act_queue.queue@.len()
            + self.other_queue.queue@.len()
    }

    /// A controller for the channel whose device tree is `dram`: it starts
    /// reading, with empty queues for 512 requests each, and with watermarks
    /// at eight tenths and two tenths of the write queue.
    pub fn new(_config: &Config, dram: Dram<T>) -> (r: Self)
        ensures
            r.channel == dram,
            r.is_fresh(),
    {
        Self {
            channel: dram,
            scheduler: Scheduler::default(),
            refresh: Refresh {  },
            read_queue: Queue::default(),
            write_queue: Queue::default(),
            act_queue: Queue::default(),
            other_queue: Queue::default(),
            pending_queue: VecDeque::new(),
            finished_queue: VecDeque::new(),
            running_mode: RunningMode::Reading,
            wr_hight_watermark: Watermark { num: 8, den: 10 },
            wr_low_watermark: Watermark { num: 2, den: 10 },
        }
    }

    /// Takes a decoded request into the read queue or the write queue, or
    /// hands it back if that queue is full.
    pub fn try_enqueue(&mut self, req: Request) -> (r: Result<(), Request>)
        requires
            req.done_setup,
        ensures
            final(self).same_setup(old(self)),
            final(self).channel == old(self).channel,
            final(self).running_mode == old(self).running_mode,
            final(self).act_queue == old(self).act_queue,
            final(self).other_queue == old(self).other_queue,
            final(self).pending_queue == old(self).pending_queue,
            final(self).finished_queue == old(self).finished_queue,
            match req.req_type {
                ReqType::Read => {
                    &&& final(self).write_queue == old(self).write_queue
                    &&& r is Ok <==> old(self).read_queue.queue@.len() < old(self).read_queue.max
                    &&& final(self).read_queue.queue@ == if r is Ok {
                        old(self).read_queue.queue@.push(req)
                    } else {
                        old(self).read_queue.queue@
                    }
                },
                ReqType::Write => {
                    &&& final(self).read_queue == old(self).read_queue
                    &&& r is Ok <==> old(self).write_queue.queue@.len()
                        < old(self).write_queue.max
                    &&& final(self).write_queue.queue@ == if r is Ok {
                        old(self).write_queue.queue@.push(req)
                    } else {
                        old(self).write_queue.queue@
                    }
                },
            },
            r matches Err(back) ==> back == req,
            old(self).within_capacity() ==> final(self).within_capacity(),
            forall|spec: T|
                old(self).wf(spec) && addr_ok(spec, req.addr_vec@) ==> #[trigger] final(self).wf(
                    spec,
                ),
            forall|spec: T|
                old(self).servable(spec) && addr_ok(spec, req.addr_vec@)
                    ==> #[trigger] final(self).servable(spec),
    {
        match req.req_type {
            ReqType::Read => {
                if self.read_queue.full() {
                    return Err(req);
                } else {
                    self.read_queue.queue.push_back(req);
                }
            },
            ReqType::Write => {
                if self.write_queue.full() {
                    return Err(req);
                } else {
                    self.write_queue.queue.push_back(req);
                }
            },
        }
        Ok(())
    }

    /// One cycle of the controller. The pending read at the head is
    /// released if its data has arrived; the mode is switched if the queues
    /// ask for it; and at most one command is issued to the device: the
    /// next one of an activated request if the device is ready for it, else
    /// the next one of the request that the mode prefers, if the device is
    /// ready for that.
    pub fn tick(&mut self, spec: &T, clk: u64)
        requires
            old(self).wf(*spec),
            clk + spec.horizon() <= u64::MAX,
        ensures
            final(self).wf(*spec),
            old(self).ticked(final(self), *spec, clk, old(self).finished_after_tick(*spec, clk)),
            old(self).channel@.no_clock_after(final(self).channel@),
            old(self).within_capacity() ==> final(self).within_capacity(),
            old(self).channel@.history_until(clk) && clk != u64::MAX ==> final(self).channel@.history_until(
                clk,
            ),
    {
        self.serve_pending(clk);
        self.refresh.tick(clk);
        self.switch_mode();
        let ghost mid = *self;
        // an activated request goes first
        if self.try_issue(spec, QueueType::Act, clk) {
            proof {
                old(self).lemma_ticked(&mid, self, *spec, clk, QueueType::Act);
            }
            return ;
        }
        let queue_type = self.get_best_queue().1;
        let ghost late = *self;
        proof {
            mid.lemma_same_queues(&late, mid.candidate(*spec, queue_type, clk), *spec, clk);
            mid.lemma_same_candidate(&late, *spec, queue_type, clk);
        }
        self.try_issue(spec, queue_type, clk);
        proof {
            old(self).lemma_ticked(&mid, self, *spec, clk, queue_type);
            crate::clocks::lemma_no_clock_after_refl(self.channel@);
        }
    }

    /// Releases the pending read at the head if its data has arrived by
    /// `clk`.
    fn serve_pending(&mut self, clk: u64)
        ensures
            final(self).pending_queue@ == drained_pending(old(self).pending_queue@, clk),
            final(self).finished_queue@ == drained_finished(
                old(self).pending_queue@,
                old(self).finished_queue@,
                clk,
            ),
            final(self).same_setup(old(self)),
            final(self).running_mode == old(self).running_mode,
            final(self).channel == old(self).channel,
            final(self).read_queue == old(self).read_queue,
            final(self).write_queue == old(self).write_queue,
            final(self).act_queue == old(self).act_queue,
            final(self).other_queue == old(self).other_queue,
    {
        let ghost pending = self.pending_queue@;
        if let Some(req) = self.pending_queue.pop_front() {
            if req.finish_time <= clk {
                self.finished_queue.push_back(req);
            } else {
                self.pending_queue.push_front(req);
            }
        }
        assert(self.pending_queue@ =~= drained_pending(pending, clk));
    }

    /// Switches between reading and writing as the queues ask for it.
    fn switch_mode(&mut self)
        ensures
            final(self).running_mode == old(self).next_mode(),
            final(self).same_setup(old(self)),
            final(self).channel == old(self).channel,
            final(self).read_queue == old(self).read_queue,
            final(self).write_queue == old(self).write_queue,
            final(self).act_queue == old(self).act_queue,
            final(self).other_queue == old(self).other_queue,
            final(self).pending_queue == old(self).pending_queue,
            final(self).finished_queue == old(self).finished_queue,
    {
        match self.running_mode {
            RunningMode::Reading => {
                if self.read_queue.size() == 0 || self.wr_hight_watermark.is_exceeded_by(
                    self.write_queue.size(),
                    self.write_queue.max,
                ) {
                    self.running_mode = RunningMode::Writing;
                }
            },
            RunningMode::Writing => {
                if self.read_queue.size() > 0 && self.wr_low_watermark.is_undershot_by(
                    self.write_queue.size(),
                    self.write_queue.max,
                ) {
                    self.running_mode = RunningMode::Reading;
                }
            },
        }
    }

    /// Whether `after` is this controller after `issue` at `clk`: the
    /// device has taken the issue and the request has moved on.
    pub open spec fn issued(&self, after: &Self, spec: T, issue: Option<Issue<T>>, clk: u64) -> bool {
        &&& after.same_setup(self)
        &&& after.running_mode == self.running_mode
        &&& after.channel@ == self.channel_after(spec, issue, clk)
        &&& after.read_queue.queue@ == self.queue_after(QueueType::Read, issue)
        &&& after.write_queue.queue@ == self.queue_after(QueueType::Write, issue)
        &&& after.act_queue.queue@ == self.queue_after(QueueType::Act, issue)
        &&& after.other_queue.queue@ == self.queue_after(QueueType::Other, issue)
        &&& after.pending_queue@ == self.pending_after(spec, self.pending_queue@, issue, clk)
        &&& after.finished_queue@ == self.finished_after(self.finished_queue@, issue, clk)
        &&& after.waiting() + self.completed(issue) == self.waiting()
    }

    /// A cycle is made of its steps: where `mid` is this controller with
    /// the pending read released and the mode switched, and `after` is
    /// `mid` after the issue for the queue `queue_type`, which is the one
    /// command chosen, `after` is this controller after the cycle.
    proof fn lemma_ticked(&self, mid: &Self, after: &Self, spec: T, clk: u64, queue_type: QueueType)
        requires
            mid.same_setup(self),
            mid.channel == self.channel,
            mid.read_queue == self.read_queue,
            mid.write_queue == self.write_queue,
            mid.act_queue == self.act_queue,
            mid.other_queue == self.other_queue,
            mid.running_mode == self.next_mode(),
            mid.pending_queue@ == drained_pending(self.pending_queue@, clk),
            mid.finished_queue@ == drained_finished(
                self.pending_queue@,
                self.finished_queue@,
                clk,
            ),
            mid.issued(after, spec, mid.candidate(spec, queue_type, clk), clk),
            queue_type == QueueType::Act && mid.candidate(spec, queue_type, clk) is Some || (
            mid.candidate(spec, QueueType::Act, clk) is None && queue_type == mid.best_queue(
                mid.running_mode,
            )),
        ensures
            self.ticked(after, spec, clk, self.finished_after_tick(spec, clk)),
    {
        let issue = mid.candidate(spec, queue_type, clk);
        self.lemma_same_candidate(mid, spec, queue_type, clk);
        self.lemma_same_candidate(mid, spec, QueueType::Act, clk);
        assert(self.choice(spec, self.next_mode(), clk) == issue);
        self.lemma_same_queues(mid, issue, spec, clk);
        assert(self.queue_of(QueueType::Read) == mid.queue_of(QueueType::Read));
        assert(self.completed(issue) == mid.completed(issue));
    }

    /// What a queue would issue depends on the device and on the queues
    /// only.
    pub proof fn lemma_same_candidate(&self, other: &Self, spec: T, queue_type: QueueType, clk: u64)
        requires
            self.scheduler == other.scheduler,
            self.channel@ == other.channel@,
            self.read_queue.queue@ == other.read_queue.queue@,
            self.write_queue.queue@ == other.write_queue.queue@,
            self.act_queue.queue@ == other.act_queue.queue@,
            self.other_queue.queue@ == other.other_queue.queue@,
        ensures
            self.candidate(spec, queue_type, clk) == other.candidate(spec, queue_type, clk),
    {
        assert(self.queue_of(queue_type) == other.queue_of(queue_type));
    }

    /// What an issue does to the device and to the queues depends on the
    /// device and on the queues only.
    pub proof fn lemma_same_queues(&self, other: &Self, issue: Option<Issue<T>>, spec: T, clk: u64)
        requires
            self.channel@ == other.channel@,
            self.read_queue.queue@ == other.read_queue.queue@,
            self.write_queue.queue@ == other.write_queue.queue@,
            self.act_queue.queue@ == other.act_queue.queue@,
            self.other_queue.queue@ == other.other_queue.queue@,
        ensures
            self.channel_after(spec, issue, clk) == other.channel_after(spec, issue, clk),
            forall|queue_type: QueueType|
                self.queue_after(queue_type, issue) == other.queue_after(queue_type, issue),
            forall|pending: Seq<Request>|
                self.pending_after(spec, pending, issue, clk) == other.pending_after(
                    spec,
                    pending,
                    issue,
                    clk,
                ),
            forall|finished: Seq<Request>|
                self.finished_after(finished, issue, clk) == other.finished_after(
                    finished,
                    issue,
                    clk,
                ),
            self.completed(issue) == other.completed(issue),
    {
        assert(forall|queue_type: QueueType|
            self.queue_of(queue_type) == other.queue_of(queue_type));
    }

    /// Hands all finished requests over to `into`, the oldest first.
    pub fn drain_finished(&mut self, into: &mut VecDeque<Request>)
        ensures
            final(self).finished_queue@ == Seq::<Request>::empty(),
            final(into)@ == old(into)@ + old(self).finished_queue@,
            final(self).same_setup(old(self)),
            final(self).running_mode == old(self).running_mode,
            final(self).channel == old(self).channel,
            final(self).read_queue == old(self).read_queue,
            final(self).write_queue == old(self).write_queue,
            final(self).act_queue == old(self).act_queue,
            final(self).other_queue == old(self).other_queue,
            final(self).pending_queue == old(self).pending_queue,
    {
        let ghost finished = self.finished_queue@;
        let ghost taken = into@;
        loop
            invariant
                into@ + self.finished_queue@ == taken + finished,
                finished == old(self).finished_queue@,
                taken == old(into)@,
                self.same_setup(old(self)),
                self.running_mode == old(self).running_mode,
                self.channel == old(self).channel,
                self.read_queue == old(self).read_queue,
                self.write_queue == old(self).write_queue,
                self.act_queue == old(self).act_queue,
                self.other_queue == old(self).other_queue,
                self.pending_queue == old(self).pending_queue,
            ensures
                self.finished_queue@.len() == 0,
            decreases self.finished_queue@.len(),
        {
            let ghost left = self.finished_queue@;
            let ghost had = into@;
            match self.finished_queue.pop_front() {
                Some(req) => {
                    into.push_back(req);
                    assert(into@ + self.finished_queue@ =~= had + left);
                },
                None => {
                    break ;
                },
            }
        }
        assert(self.finished_queue@ =~= Seq::<Request>::empty());
        assert(into@ =~= taken + finished);
    }

    /// Whether `cmd` may issue at the coordinates at cycle `clk`.
    pub fn is_ready_cmd(&self, spec: &T, cmd: &T::Command, addr_vec: &[u64], clk: u64) -> (r: bool)
        requires
            spec.wf(),
            self.channel@.wf(*spec),
            addr_ok(*spec, addr_vec@),
        ensures
            r == self.channel@.ready(*spec, *cmd, addr_vec@, clk),
    {
        self.channel.check(spec, cmd, addr_vec, clk)
    }

    /// The command that `req` needs next.
    pub fn get_first_cmd(&self, spec: &T, req: &Request) -> (r: T::Command)
        requires
            spec.wf(),
            self.channel@.wf(*spec),
            addr_ok(*spec, req.addr_vec@),
        ensures
            r == self.channel@.decoded(T::first_cmd(req.req_type), req.addr_vec@),
    {
        let first_cmd = self.channel.get_first_cmd(&req.req_type);
        self.channel.decode(spec, &first_cmd, req.addr_vec.as_slice())
    }

    /// Issues `cmd` to the device at cycle `clk`.
    pub fn issue_cmd(&mut self, spec: &T, cmd: T::Command, addr_vec: &[u64], clk: u64)
        requires
            spec.wf(),
            old(self).channel@.wf(*spec),
            addr_ok(*spec, addr_vec@),
            clk + spec.horizon() <= u64::MAX,
        ensures
            final(self).channel@ == old(self).channel@.after_issue(*spec, cmd, addr_vec@, clk),
            final(self).channel@.wf(*spec),
            old(self).channel@.no_clock_after(final(self).channel@),
            old(self).channel@.history_until(clk) && clk != u64::MAX ==> final(self).channel@.history_until(
                clk,
            ),
            final(self).same_setup(old(self)),
            final(self).running_mode == old(self).running_mode,
            final(self).read_queue == old(self).read_queue,
            final(self).write_queue == old(self).write_queue,
            final(self).act_queue == old(self).act_queue,
            final(self).other_queue == old(self).other_queue,
            final(self).pending_queue == old(self).pending_queue,
            final(self).finished_queue == old(self).finished_queue,
    {
        self.channel.update(spec, &cmd, addr_vec, clk);
    }

    /// Issues the command that the queue `queue_type` would issue at `clk`,
    /// if there is one, and says whether it did.
    fn try_issue(&mut self, spec: &T, queue_type: QueueType, clk: u64) -> (issued: bool)
        requires
            old(self).wf(*spec),
            clk + spec.horizon() <= u64::MAX,
        ensures
            final(self).wf(*spec),
            issued == old(self).candidate(*spec, queue_type, clk).is_some(),
            old(self).issued(final(self), *spec, old(self).candidate(*spec, queue_type, clk), clk),
            old(self).within_capacity() ==> final(self).within_capacity(),
            old(self).channel@.no_clock_after(final(self).channel@),
            old(self).channel@.history_until(clk) && clk != u64::MAX ==> final(self).channel@.history_until(
                clk,
            ),
    {
        proof {
            crate::model::lemma_shaped_states_allowed(*spec, self.channel@);
            crate::clocks::lemma_no_clock_after_refl(self.channel@);
            spec.lemma_tables();
        }
        let found = self.scheduler.get_best_req(self.queue(queue_type), &self.channel);
        if let Some((index, req)) = found {
            let cmd = self.get_first_cmd(spec, req);
            let first = T::get_first_cmd(&req.req_type);
            proof {
                cmd.lemma_command();
                first.lemma_command();
            }
            let is_last = cmd.to_usize() == first.to_usize();
            assert(is_last == (cmd == first)) by {
                if cmd.index() == first.index() {
                    assert(T::Command::at(cmd.index()) == T::Command::at(first.index()));
                }
            }
            if self.is_ready_cmd(spec, &cmd, req.addr_vec.as_slice(), clk) {
                let addr_vec = req.addr_vec.clone();
                assert(addr_vec@ =~= req.addr_vec@);
                self.issue_cmd(spec, cmd, addr_vec.as_slice(), clk);
                self.handle_after_issue(spec, index, &cmd, is_last, queue_type, clk);
                return true;
            }
        }
        false
    }

    /// The queue `queue_type`.
    pub fn queue(&self, queue_type: QueueType) -> (r: &Queue)
        ensures
            r.queue@ == self.queue_of(queue_type),
    {
        match queue_type {
            QueueType::Read => &self.read_queue,
            QueueType::Write => &self.write_queue,
            QueueType::Act => &self.act_queue,
            QueueType::Other => &self.other_queue,
        }
    }

    /// Moves the request at `cmd_index` of the queue `queue_type` on after
    /// `cmd` has been issued for it at `clk`: to the pending reads or the
    /// finished requests if `cmd` was its last command, to the activated
    /// requests if `cmd` has activated its row.
    pub fn handle_after_issue(
        &mut self,
        spec: &T,
        cmd_index: usize,
        cmd: &T::Command,
        is_last: bool,
        queue_type: QueueType,
        clk: u64,
    )
        requires
            cmd_index < old(self).queue_of(queue_type).len(),
            clk + spec.read_latency() <= u64::MAX,
        ensures
            final(self).same_setup(old(self)),
            final(self).running_mode == old(self).running_mode,
            final(self).channel == old(self).channel,
            ({
                let req = old(self).queue_of(queue_type)[cmd_index as int];
                let leaves = is_last || cmd.activates();
                let joins = !is_last && cmd.activates();
                &&& final(self).read_queue.queue@ == moved_on(
                    old(self).read_queue.queue@,
                    QueueType::Read,
                    queue_type,
                    cmd_index as int,
                    req,
                    leaves,
                    joins,
                )
                &&& final(self).write_queue.queue@ == moved_on(
                    old(self).write_queue.queue@,
                    QueueType::Write,
                    queue_type,
                    cmd_index as int,
                    req,
                    leaves,
                    joins,
                )
                &&& final(self).act_queue.queue@ == moved_on(
                    old(self).act_queue.queue@,
                    QueueType::Act,
                    queue_type,
                    cmd_index as int,
                    req,
                    leaves,
                    joins,
                )
                &&& final(self).other_queue.queue@ == moved_on(
                    old(self).other_queue.queue@,
                    QueueType::Other,
                    queue_type,
                    cmd_index as int,
                    req,
                    leaves,
                    joins,
                )
                &&& final(self).pending_queue@ == if is_last && req.req_type == ReqType::Read {
                    old(self).pending_queue@.push(
                        Request { finish_time: (clk + spec.read_latency()) as u64, ..req },
                    )
                } else {
                    old(self).pending_queue@
                }
                &&& final(self).finished_queue@ == if is_last && req.req_type == ReqType::Write {
                    old(self).finished_queue@.push(Request { finish_time: clk, ..req })
                } else {
                    old(self).finished_queue@
                }
            }),
    {
        if is_last {
            let mut req = self.take(queue_type, cmd_index);
            match req.req_type {
                ReqType::Read => {
                    req.finish_time = clk + spec.get_read_latency();
                    self.pending_queue.push_back(req);
                },
                ReqType::Write => {
                    req.finish_time = clk;
                    self.finished_queue.push_back(req);
                },
            }
        } else {
            if cmd.is_act() {
                let req = self.take(queue_type, cmd_index);
                self.act_queue.queue.push_back(req);
            }
        }
    }

    /// Takes the request at `index` out of the queue `queue_type`.
    fn take(&mut self, queue_type: QueueType, index: usize) -> (req: Request)
        requires
            index < old(self).queue_of(queue_type).len(),
        ensures
            req == old(self).queue_of(queue_type)[index as int],
            final(self).same_setup(old(self)),
            final(self).running_mode == old(self).running_mode,
            final(self).channel == old(self).channel,
            final(self).pending_queue == old(self).pending_queue,
            final(self).finished_queue == old(self).finished_queue,
            final(self).read_queue.queue@ == if queue_type == QueueType::Read {
                old(self).read_queue.queue@.remove(index as int)
            } else {
                old(self).read_queue.queue@
            },
            final(self).write_queue.queue@ == if queue_type == QueueType::Write {
                old(self).write_queue.queue@.remove(index as int)
            } else {
                old(self).write_queue.queue@
            },
            final(self).act_queue.queue@ == if queue_type == QueueType::Act {
                old(self).act_queue.queue@.remove(index as int)
            } else {
                old(self).act_queue.queue@
            },
            final(self).other_queue.queue@ == if queue_type == QueueType::Other {
                old(self).other_queue.queue@.remove(index as int)
            } else {
                old(self).other_queue.queue@
            },
    {
        let taken = match queue_type {
            QueueType::Read => self.read_queue.queue.remove(index),
            QueueType::Write => self.write_queue.queue.remove(index),
            QueueType::Act => self.act_queue.queue.remove(index),
            QueueType::Other => self.other_queue.queue.remove(index),
        };
        taken.unwrap()
    }

    /// The queue that is served when no activated request can go on, with
    /// its type.
    pub fn get_best_queue(&self) -> (r: (&Queue, QueueType))
        ensures
            r.1 == self.best_queue(self.running_mode),
            r.0.queue@ == self.queue_of(r.1),
    {
        if self.other_queue.size() == 0 {
            match self.running_mode {
                RunningMode::Reading => (&self.read_queue, QueueType::Read),
                RunningMode::Writing => (&self.write_queue, QueueType::Write),
            }
        } else {
            (&self.other_queue, QueueType::Other)
        }
    }

    /// The queue that is served when no activated request can go on, to be
    /// changed in place.
    pub fn get_best_queue_mut(&mut self) -> (r: &mut Queue)
        ensures
            *r == old(self).queue_struct(old(self).best_queue(old(self).running_mode)),
            *final(r) == final(self).queue_struct(old(self).best_queue(old(self).running_mode)),
            final(self).same_setup_but_queues(old(self)),
            forall|other: QueueType|
                other != old(self).best_queue(old(self).running_mode) ==> final(self).queue_struct(
                    other,
                ) == old(self).queue_struct(other),
    {
        if self.other_queue.size() == 0 {
            match self.running_mode {
                RunningMode::Reading => &mut self.read_queue,
                RunningMode::Writing => &mut self.write_queue,
            }
        } else {
            &mut self.other_queue
        }
    }
}

} // verus!
