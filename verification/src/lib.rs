//! A cycle-accurate DDR4 DRAM simulator core: address codec, device timing
//! model, per-channel controller and the memory that fans requests out to
//! the controllers.
pub mod bank_state;
pub mod clocks;
pub mod config;
pub mod controller;
pub mod ddr4;
pub mod dram;
pub mod memory;
pub mod model;
pub mod refresh;
pub mod request;
pub mod scheduler;
pub mod spacing;
pub mod utils;

use vstd::prelude::*;
use crate::ddr4::DDR4;
use crate::dram::DramSpec;
use crate::memory::{MemoryTrait, SimpleMemory};
use crate::request::{ReqType, Request};

verus! {

/// A memory of DDR4 devices.
pub type SimpleDDR4 = SimpleMemory<DDR4>;

/// A fresh request for the address `addr`: a write if `is_write` is set,
/// else a read.
pub open spec fn is_fresh_request(req: Request, addr: u64, is_write: bool) -> bool {
    &&& req.addr == addr
    &&& req.req_type == if is_write {
        ReqType::Write
    } else {
        ReqType::Read
    }
    &&& !req.done_setup
    &&& req.addr_vec@.len() == 0
    &&& req.arrival_time == 0
    &&& req.finish_time == 0
}

impl SimpleMemory<DDR4> {
    /// Advances the memory by one cycle.
    pub fn tick_ddr4(&mut self)
        requires
            old(self).inv(),
            old(self).servable(),
            old(self).cycle() + 1 + old(self).spec_of().horizon() < u64::MAX,
        ensures
            final(self).inv(),
            final(self).servable(),
            final(self).cycle() == old(self).cycle() + 1,
            final(self).spec_of() == old(self).spec_of(),
            final(self).mapping() == old(self).mapping(),
            final(self).ticked_from(old(self)),
    {
        self.tick();
    }

    /// Sends a fresh request for the address `addr`, a write if `is_write`
    /// is set, else a read, and says whether the memory took it.
    pub fn try_send_addr(&mut self, addr: u64, is_write: bool) -> (r: bool)
        requires
            old(self).inv(),
            old(self).has_channels(),
        ensures
            final(self).inv(),
            old(self).servable() && old(self).populated() ==> final(self).servable(),
            final(self).cycle() == old(self).cycle(),
            final(self).returned() == old(self).returned(),
            final(self).spec_of() == old(self).spec_of(),
            final(self).mapping() == old(self).mapping(),
            final(self).pending() == old(self).pending() + if r {
                1nat
            } else {
                0nat
            },
            exists|req: Request, answer: Result<(), Request>|
                is_fresh_request(req, addr, is_write) && r == (answer is Ok) && old(self).sent(
                    final(self),
                    req,
                    answer,
                ),
    {
        let req = Request::new(
            addr,
            if is_write {
                ReqType::Write
            } else {
                ReqType::Read
            },
        );
        let ghost fresh = req;
        let answer = self.try_send(req);
        assert(is_fresh_request(fresh, addr, is_write) && old(self).sent(self, fresh, answer));
        answer.is_ok()
    }

    /// Receives the oldest finished request, if there is one: says whether
    /// there was one, and writes its address to `addr` and whether it was a
    /// write to `is_write`.
    pub fn try_recv_addr(&mut self, addr: &mut u64, is_write: &mut bool) -> (r: bool)
        requires
            old(self).inv(),
        ensures
            final(self).inv(),
            final(self).cycle() == old(self).cycle(),
            final(self).pending() == old(self).pending(),
            final(self).spec_of() == old(self).spec_of(),
            final(self).mapping() == old(self).mapping(),
            final(self).controllers() == old(self).controllers(),
            r == (old(self).returned().len() > 0),
            r ==> {
                &&& *final(addr) == old(self).returned()[0].addr
                &&& *final(is_write) == (old(self).returned()[0].req_type == ReqType::Write)
                &&& final(self).returned() == old(self).returned().drop_first()
            },
            !r ==> {
                &&& *final(addr) == *old(addr)
                &&& *final(is_write) == *old(is_write)
                &&& final(self).returned() == old(self).returned()
            },
    {
        if let Some(req) = self.try_recv() {
            *addr = req.addr;
            *is_write = req.req_type.is_write();
            true
        } else {
            false
        }
    }
}

} // verus!
