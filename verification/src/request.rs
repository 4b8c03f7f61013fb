//! Memory requests as submitted by the caller.
use vstd::prelude::*;

verus! {

/// Whether a request reads or writes.
#[derive(Debug, Clone, Copy, PartialEq, Eq, Structural)]
pub enum ReqType {
    Read,
    Write,
}

impl ReqType {
    pub fn is_read(&self) -> (r: bool)
        ensures
            r == (*self is Read),
    {
        match self {
            ReqType::Read => true,
            ReqType::Write => false,
        }
    }

    pub fn is_write(&self) -> (r: bool)
        ensures
            r == (*self is Write),
    {
        match self {
            ReqType::Read => false,
            ReqType::Write => true,
        }
    }
}

/// One unit of work: a byte address to read or write.
///
/// `addr_vec` holds the per-level coordinates of `addr`; it is meaningful
/// only once `done_setup` is set.
#[derive(Debug)]
pub struct Request {
    pub addr: u64,
    pub addr_vec: Vec<u64>,
    pub done_setup: bool,
    pub req_type: ReqType,
    pub arrival_time: u64,
    pub finish_time: u64,
}

impl Request {
    /// A request that has not been decoded yet.
    pub fn new(addr: u64, req_type: ReqType) -> (r: Self)
        ensures
            r.addr == addr,
            r.addr_vec@ == Seq::<u64>::empty(),
            !r.done_setup,
            r.req_type == req_type,
            r.arrival_time == 0,
            r.finish_time == 0,
    {
        Self { addr, addr_vec: Vec::new(), done_setup: false, req_type, arrival_time: 0, finish_time: 0 }
    }

    pub fn new_read(addr: u64) -> (r: Self)
        ensures
            r.addr == addr,
            r.addr_vec@ == Seq::<u64>::empty(),
            !r.done_setup,
            r.req_type == ReqType::Read,
            r.arrival_time == 0,
            r.finish_time == 0,
    {
        Self::new(addr, ReqType::Read)
    }

    pub fn new_write(addr: u64) -> (r: Self)
        ensures
            r.addr == addr,
            r.addr_vec@ == Seq::<u64>::empty(),
            !r.done_setup,
            r.req_type == ReqType::Write,
            r.arrival_time == 0,
            r.finish_time == 0,
    {
        Self::new(addr, ReqType::Write)
    }
}

} // verus!
