use ramu_rs::config::Config;
use ramu_rs::controller::Queue;
use ramu_rs::ddr4::{Command, Level, DDR4};
use ramu_rs::dram::{Dram, LevelTrait};
use ramu_rs::request::{ReqType, Request};
use ramu_rs::scheduler::{Scheduler, SchedulerType};

struct A {
    a: i32,
}

impl A {
    fn get_mut(&mut self) -> &mut i32 {
        &mut self.a
    }
}

#[test]
fn test() {
    let mut a = A { a: 1 };
    let b = a.get_mut();
    *b = 2;
}

fn decoded(ddr4: &DDR4, bank: u64, row: u64, column: u64) -> Request {
    let _ = ddr4;
    Request {
        addr: 0,
        addr_vec: vec![0, 0, 0, bank, row, column],
        done_setup: true,
        req_type: ReqType::Read,
        arrival_time: 0,
        finish_time: 0,
    }
}

#[test]
fn the_default_scheduler_serves_in_order() {
    let scheduler = Scheduler::default();
    assert_eq!(scheduler.scheduler_type, SchedulerType::FCFS);
    assert_eq!(SchedulerType::default(), SchedulerType::FCFS);
}

#[test]
fn an_empty_queue_gives_no_request() {
    let config = Config::default();
    let ddr4 = DDR4::new(&config);
    let dram = Dram::new(&ddr4, Level::channel(), 0);
    let queue = Queue::new(4);
    let fcfs = Scheduler { scheduler_type: SchedulerType::FCFS };
    let frfcfs = Scheduler { scheduler_type: SchedulerType::FRFCFS };
    assert!(fcfs.get_best_req(&queue, &dram).is_none());
    assert!(frfcfs.get_best_req(&queue, &dram).is_none());
}

#[test]
fn fcfs_picks_the_oldest_request() {
    let config = Config::default();
    let ddr4 = DDR4::new(&config);
    let mut dram = Dram::new(&ddr4, Level::channel(), 0);
    // open row 7 of bank 2
    dram.update(&ddr4, &Command::ACT, &[0, 0, 0, 2, 7, 0], 0);
    let mut queue = Queue::new(4);
    queue.queue.push_back(decoded(&ddr4, 1, 3, 0));
    queue.queue.push_back(decoded(&ddr4, 2, 7, 5));
    let fcfs = Scheduler { scheduler_type: SchedulerType::FCFS };
    let (index, req) = fcfs.get_best_req(&queue, &dram).unwrap();
    assert_eq!(index, 0);
    assert_eq!(req.addr_vec, vec![0, 0, 0, 1, 3, 0]);
}

#[test]
fn frfcfs_prefers_the_oldest_row_hit() {
    let config = Config::default();
    let ddr4 = DDR4::new(&config);
    let mut dram = Dram::new(&ddr4, Level::channel(), 0);
    // open row 7 of bank 2
    dram.update(&ddr4, &Command::ACT, &[0, 0, 0, 2, 7, 0], 0);
    let mut queue = Queue::new(8);
    queue.queue.push_back(decoded(&ddr4, 1, 3, 0));
    queue.queue.push_back(decoded(&ddr4, 2, 6, 0));
    queue.queue.push_back(decoded(&ddr4, 2, 7, 5));
    queue.queue.push_back(decoded(&ddr4, 2, 7, 9));
    let frfcfs = Scheduler { scheduler_type: SchedulerType::FRFCFS };
    let (index, req) = frfcfs.get_best_req(&queue, &dram).unwrap();
    assert_eq!(index, 2);
    assert_eq!(req.addr_vec, vec![0, 0, 0, 2, 7, 5]);
}

#[test]
fn frfcfs_falls_back_to_the_oldest_request() {
    let config = Config::default();
    let ddr4 = DDR4::new(&config);
    let dram = Dram::new(&ddr4, Level::channel(), 0);
    let mut queue = Queue::new(8);
    queue.queue.push_back(decoded(&ddr4, 1, 3, 0));
    queue.queue.push_back(decoded(&ddr4, 2, 6, 0));
    let frfcfs = Scheduler { scheduler_type: SchedulerType::FRFCFS };
    let (index, req) = frfcfs.get_best_req(&queue, &dram).unwrap();
    assert_eq!(index, 0);
    assert_eq!(req.addr_vec, vec![0, 0, 0, 1, 3, 0]);
}
