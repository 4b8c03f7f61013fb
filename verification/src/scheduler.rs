//! The choice of the request that a controller serves next.
use vstd::prelude::*;
use crate::controller::Queue;
use crate::dram::{Dram, DramSpec, LevelTrait, State};
use crate::model::{DramModel};
use crate::request::Request;

verus! {

/// The policies by which the next request is chosen.
#[derive(Debug, Clone, Copy, PartialEq, Eq, Structural)]
pub enum SchedulerType {
    /// First come, first served.
    FCFS,
    /// First ready, first come, first served: requests to an open row go
    /// first.
    FRFCFS,
}

impl Default for SchedulerType {
    fn default() -> (r: Self)
        ensures
            r == SchedulerType::FCFS,
    {
        SchedulerType::FCFS
    }
}

#[derive(Debug)]
pub struct Scheduler {
    pub scheduler_type: SchedulerType,
}

impl Default for Scheduler {
    fn default() -> (r: Self)
        ensures
            r.scheduler_type == SchedulerType::FCFS,
    {
        Scheduler { scheduler_type: SchedulerType::FCFS }
    }
}

/// Whether the row that the coordinates name is the open row of its bank.
pub open spec fn row_hit<T: DramSpec>(dram: DramModel<T>, addr_vec: Seq<u64>) -> bool
    decreases dram,
{
    let child_index = addr_vec[dram.level.index() as int + 1];
    if dram.level.next() is None {
        false
    } else if dram.level.index() + 1 == T::Level::row_index() {
        dram.state == State::Opened(child_index)
    } else {
        child_index < dram.children.len() && row_hit(dram.children[child_index as int], addr_vec)
    }
}

/// The position of the first request of the queue that hits an open row, or
/// the length of the queue if there is none.
pub open spec fn first_hit<T: DramSpec>(queue: Seq<Request>, dram: DramModel<T>) -> nat
    decreases queue.len(),
{
    if queue.len() == 0 {
        0
    } else if row_hit(dram, queue[0].addr_vec@) {
        0
    } else {
        1 + first_hit(queue.drop_first(), dram)
    }
}

/// The first hit is a hit, and nothing before it is.
pub proof fn lemma_first_hit<T: DramSpec>(queue: Seq<Request>, dram: DramModel<T>)
    ensures
        first_hit(queue, dram) <= queue.len(),
        first_hit(queue, dram) < queue.len() ==> row_hit(
            dram,
            queue[first_hit(queue, dram) as int].addr_vec@,
        ),
        forall|i: int| 0 <= i < first_hit(queue, dram) ==> !row_hit(dram, queue[i].addr_vec@),
    decreases queue.len(),
{
    if queue.len() > 0 && !row_hit(dram, queue[0].addr_vec@) {
        lemma_first_hit(queue.drop_first(), dram);
        assert forall|i: int| 0 <= i < first_hit(queue, dram) implies !row_hit(
            dram,
            queue[i].addr_vec@,
        ) by {
            if i > 0 {
                assert(queue[i] == queue.drop_first()[i - 1]);
            }
        }
    }
}

fn is_row_hit<T: DramSpec>(dram: &Dram<T>, addr_vec: &[u64]) -> (r: bool)
    requires
        addr_vec@.len() == T::Level::MAX_LEVEL,
        dram@.levels_descend(),
    ensures
        r == row_hit(dram@, addr_vec@),
    decreases T::Level::MAX_LEVEL - dram.level.index(),
{
    proof {
        dram.level.lemma_level();
    }
    match dram.level.next_level() {
        None => false,
        Some(below) => {
            proof {
                below.lemma_level();
            }
            let child_index = addr_vec[below.to_usize()];
            if dram.level.is_bank() {
                dram.state == State::Opened(child_index)
            } else if child_index < dram.children.len() as u64 {
                assert(dram@.children[child_index as int] == dram.children@[child_index as int]@);
                proof {
                    dram.children@[child_index as int].level.lemma_level();
                }
                is_row_hit(&dram.children[child_index as usize], addr_vec)
            } else {
                false
            }
        },
    }
}

impl Scheduler {
    /// The position in the queue of the request to serve next, if the queue
    /// holds any: the oldest request or, where requests to an open row go
    /// first, the oldest of those if there is one.
    pub open spec fn best<T: DramSpec>(self, queue: Seq<Request>, dram: DramModel<T>) -> Option<
        nat,
    > {
        if queue.len() == 0 {
            None
        } else {
            match self.scheduler_type {
                SchedulerType::FCFS => Some(0),
                SchedulerType::FRFCFS => if first_hit(queue, dram) < queue.len() {
                    Some(first_hit(queue, dram))
                } else {
                    Some(0)
                },
            }
        }
    }

    /// The request of the queue to serve next, with its position.
    pub fn get_best_req<'b, T: DramSpec>(&self, queue: &'b Queue, dram: &Dram<T>) -> (r: Option<
        (usize, &'b Request),
    >)
        requires
            dram@.levels_descend(),
            forall|i: int|
                0 <= i < queue.queue@.len() ==> (#[trigger] queue.queue@[i]).addr_vec@.len()
                    == T::Level::MAX_LEVEL,
        ensures
            match r {
                Some((index, req)) => self.best(queue.queue@, dram@) == Some(index as nat)
                    && index < queue.queue@.len() && *req == queue.queue@[index as int],
                None => self.best(queue.queue@, dram@) is None,
            },
    {
        if queue.size() == 0 {
            return None;
        }
        match self.scheduler_type {
            SchedulerType::FCFS => Some((0, &queue.queue[0])),
            SchedulerType::FRFCFS => {
                let n = queue.size();
                let mut i: usize = 0;
                assert(queue.queue@.subrange(0, n as int) =~= queue.queue@);
                while i < n
                    invariant
                        i <= n,
                        n == queue.queue@.len(),
                        self.scheduler_type == SchedulerType::FRFCFS,
                        dram@.levels_descend(),
                        forall|k: int|
                            0 <= k < queue.queue@.len() ==> (#[trigger] queue.queue@[k]).addr_vec@.len()
                                == T::Level::MAX_LEVEL,
                        i + first_hit(queue.queue@.subrange(i as int, n as int), dram@)
                            == first_hit(queue.queue@, dram@),
                    decreases n - i,
                {
                    let ghost rest = queue.queue@.subrange(i as int, n as int);
                    assert(rest[0] == queue.queue@[i as int]);
                    assert(rest.drop_first() =~= queue.queue@.subrange(i + 1, n as int));
                    if is_row_hit(dram, queue.queue[i].addr_vec.as_slice()) {
                        assert(first_hit(rest, dram@) == 0);
                        return Some((i, &queue.queue[i]));
                    }
                    i += 1;
                }
                Some((0, &queue.queue[0]))
            },
        }
    }
}

} // verus!
