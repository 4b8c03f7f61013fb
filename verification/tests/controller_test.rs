use ramu_rs::config::Config;
use ramu_rs::controller::{Controller, Queue, QueueType, RunningMode, Watermark};
use ramu_rs::ddr4::{Command, Level, Speed, DDR4};
use ramu_rs::dram::{Dram, DramSpec, LevelTrait, State};
use ramu_rs::request::{ReqType, Request};
use ramu_rs::scheduler::SchedulerType;

fn decoded(req_type: ReqType, addr_vec: [u64; 6]) -> Request {
    Request {
        req_type,
        addr_vec: addr_vec.to_vec(),
        finish_time: 0,
        addr: 0,
        done_setup: true,
        arrival_time: 0,
    }
}

fn default_controller() -> (DDR4, Controller<DDR4>) {
    let config = Config::default();
    let ddr4 = DDR4::new(&config);
    let dram = Dram::new(&ddr4, Level::channel(), 0);
    let controller = Controller::new(&config, dram);
    (ddr4, controller)
}

fn clocks_of(dram: &Dram<DDR4>, out: &mut Vec<u64>) {
    out.extend(dram.next_clk.iter());
    for child in dram.children.iter() {
        clocks_of(child, out);
    }
}

fn issues_of(dram: &Dram<DDR4>) -> usize {
    // every issue is recorded once at the channel, if the command has a
    // history there: reads and writes have
    dram.prev.iter().map(|h| h.iter().filter(|clk| **clk != u64::MAX).count()).sum()
}

#[test]
fn test_controller_simple_read() {
    // act and rd
    let config = Config::default();
    let ddr4 = DDR4::new(&config);
    let dram = Dram::new(&ddr4, Level::channel(), 0);
    let mut controller = Controller::new(&config, dram);
    let req = Request {
        req_type: ReqType::Read,
        addr_vec: vec![0x0, 0x0, 0x0, 0x0, 0, 0],
        finish_time: 0,
        addr: 0,
        done_setup: true,
        arrival_time: 0,
    };
    controller.try_enqueue(req).unwrap();
    // the first command should be act
    for i in 0..36 {
        // in cycle 16, it will be rd(act to rd)
        controller.tick(&ddr4, i);
    }
    // in cycle 36, it will be finished(rd latency): with DDR4-2400R the read
    // comes nRCD = 16 after the activation and its data nCL + nBL = 20 later
    assert!(controller.finished_queue.is_empty());
    controller.tick(&ddr4, 36);
    assert_eq!(controller.finished_queue.len(), 1);
    // and it stays the one finished request up to cycle 48 and beyond
    for i in 37..=48 {
        controller.tick(&ddr4, i);
    }
    assert_eq!(controller.finished_queue.len(), 1);
}

#[test]
fn a_read_at_ddr4_3200_is_finished_at_cycle_48() {
    let config = Config { ddr4_speed: Speed::DDR4_3200, ..Config::default() };
    let ddr4 = DDR4::new(&config);
    let dram = Dram::new(&ddr4, Level::channel(), 0);
    let mut controller = Controller::new(&config, dram);
    controller.try_enqueue(decoded(ReqType::Read, [0, 0, 0, 0, 0, 0])).unwrap();
    for i in 0..48 {
        // in cycle 22, it will be rd(act to rd)
        controller.tick(&ddr4, i);
    }
    // in cycle 48, it will be finished: nRCD = 22 and nCL + nBL = 26
    assert!(controller.finished_queue.is_empty());
    controller.tick(&ddr4, 48);
    assert_eq!(controller.finished_queue.len(), 1);
}

#[test]
fn a_read_of_a_cold_bank_takes_activation_and_latency() {
    let (ddr4, mut controller) = default_controller();
    controller.try_enqueue(decoded(ReqType::Read, [0, 0, 0, 0, 0, 0])).unwrap();
    // the activation at cycle 0 moves the request to the activated ones
    controller.tick(&ddr4, 0);
    assert_eq!(controller.read_queue.size(), 0);
    assert_eq!(controller.act_queue.size(), 1);
    assert_eq!(controller.channel.children[0].children[0].children[0].state, State::Opened(0));
    for clk in 1..16 {
        controller.tick(&ddr4, clk);
        assert_eq!(controller.act_queue.size(), 1);
        assert!(controller.pending_queue.is_empty());
    }
    // the read at cycle nRCD = 16
    controller.tick(&ddr4, 16);
    assert_eq!(controller.act_queue.size(), 0);
    assert_eq!(controller.pending_queue.len(), 1);
    assert_eq!(controller.pending_queue[0].finish_time, 36);
    for clk in 17..36 {
        controller.tick(&ddr4, clk);
        assert!(controller.finished_queue.is_empty());
    }
    // the data after nCL + nBL = 20 more
    controller.tick(&ddr4, 36);
    assert!(controller.pending_queue.is_empty());
    assert_eq!(controller.finished_queue.len(), 1);
    assert_eq!(controller.finished_queue[0].finish_time, 36);
}

#[test]
fn a_write_is_finished_when_it_issues() {
    let (ddr4, mut controller) = default_controller();
    controller.try_enqueue(decoded(ReqType::Write, [0, 0, 1, 1, 5, 2])).unwrap();
    assert_eq!(controller.write_queue.size(), 1);
    for clk in 0..16 {
        controller.tick(&ddr4, clk);
        assert!(controller.finished_queue.is_empty());
    }
    // with nothing to read the controller has turned to writing
    assert_eq!(controller.running_mode, RunningMode::Writing);
    controller.tick(&ddr4, 16);
    assert!(controller.pending_queue.is_empty());
    assert_eq!(controller.finished_queue.len(), 1);
    assert_eq!(controller.finished_queue[0].finish_time, 16);
    assert_eq!(controller.finished_queue[0].addr_vec, vec![0, 0, 1, 1, 5, 2]);
}

#[test]
fn reads_of_two_rows_of_a_bank_wait_for_precharge_and_activation() {
    let (ddr4, mut controller) = default_controller();
    controller.try_enqueue(decoded(ReqType::Read, [0, 0, 0, 0, 0, 0])).unwrap();
    controller.try_enqueue(decoded(ReqType::Read, [0, 0, 0, 0, 1, 0])).unwrap();
    let mut precharged_at = None;
    for clk in 0..=91 {
        let open = controller.channel.children[0].children[0].children[0].state;
        controller.tick(&ddr4, clk);
        let now = controller.channel.children[0].children[0].children[0].state;
        if open == State::Opened(0) && now == State::Closed {
            precharged_at = Some(clk);
        }
    }
    assert_eq!(precharged_at, Some(39));
    assert_eq!(controller.finished_queue.len(), 2);
    let first_read = controller.finished_queue[0].finish_time - ddr4.get_read_latency();
    let second_read = controller.finished_queue[1].finish_time - ddr4.get_read_latency();
    assert_eq!(first_read, 16);
    // precharge at nRAS = 39, activation at nRC = 55, read nRCD = 16 later
    assert_eq!(second_read, 71);
    // nRTP + nRP + nRCD
    assert!(second_read - first_read >= 9 + 16 + 16);
    assert_eq!(controller.finished_queue[1].addr_vec, vec![0, 0, 0, 0, 1, 0]);
}

#[test]
fn a_row_hit_needs_no_activation() {
    let (ddr4, mut controller) = default_controller();
    controller.try_enqueue(decoded(ReqType::Read, [0, 0, 0, 0, 0, 0])).unwrap();
    controller.try_enqueue(decoded(ReqType::Read, [0, 0, 0, 0, 0, 1])).unwrap();
    for clk in 0..=42 {
        controller.tick(&ddr4, clk);
        // the row stays open from the activation on
        assert_eq!(
            controller.channel.children[0].children[0].children[0].state,
            State::Opened(0)
        );
    }
    assert_eq!(controller.finished_queue.len(), 2);
    let first_read = controller.finished_queue[0].finish_time - 20;
    let second_read = controller.finished_queue[1].finish_time - 20;
    assert_eq!(first_read, 16);
    // nCCDL = 6 later, in the same bank group
    assert_eq!(second_read, 22);
    // one activation in all
    let bank = &controller.channel.children[0].children[0].children[0];
    assert_eq!(bank.prev[Command::ACT as usize][0], 0);
    assert_eq!(bank.prev[Command::PRE as usize][0], u64::MAX);
}

#[test]
fn a_full_queue_hands_the_request_back() {
    let (_ddr4, mut controller) = default_controller();
    controller.read_queue = Queue::new(2);
    controller.try_enqueue(decoded(ReqType::Read, [0, 0, 0, 0, 0, 0])).unwrap();
    controller.try_enqueue(decoded(ReqType::Read, [0, 0, 0, 0, 0, 1])).unwrap();
    assert!(controller.read_queue.full());
    let back = controller.try_enqueue(decoded(ReqType::Read, [0, 0, 0, 0, 0, 2])).unwrap_err();
    assert_eq!(back.addr_vec, vec![0, 0, 0, 0, 0, 2]);
    assert_eq!(back.req_type, ReqType::Read);
    assert!(back.done_setup);
    assert_eq!(controller.read_queue.size(), 2);
    // the write queue has room
    controller.try_enqueue(decoded(ReqType::Write, [0, 0, 0, 0, 0, 2])).unwrap();
    assert_eq!(controller.write_queue.size(), 1);
    controller.write_queue.max = 1;
    let back = controller.try_enqueue(decoded(ReqType::Write, [0, 0, 0, 0, 0, 3])).unwrap_err();
    assert_eq!(back.addr_vec, vec![0, 0, 0, 0, 0, 3]);
    assert_eq!(back.req_type, ReqType::Write);
}

#[test]
fn queues_hold_512_requests_by_default() {
    let queue = Queue::default();
    assert_eq!(queue.max, 512);
    assert_eq!(queue.size(), 0);
    assert!(!queue.full());
    let none = Queue::new(0);
    assert!(none.full());
    let (_ddr4, controller) = default_controller();
    assert_eq!(controller.read_queue.max, 512);
    assert_eq!(controller.write_queue.max, 512);
    assert_eq!(controller.act_queue.max, 512);
    assert_eq!(controller.other_queue.max, 512);
    assert_eq!(controller.running_mode, RunningMode::Reading);
    assert_eq!(controller.wr_hight_watermark, Watermark { num: 8, den: 10 });
    assert_eq!(controller.wr_low_watermark, Watermark { num: 2, den: 10 });
    assert_eq!(controller.scheduler.scheduler_type, SchedulerType::FCFS);
}

#[test]
fn the_watermarks_compare_exactly() {
    let high = Watermark { num: 8, den: 10 };
    // eight tenths of 512 are 409.6
    assert!(!high.is_exceeded_by(409, 512));
    assert!(high.is_exceeded_by(410, 512));
    let low = Watermark { num: 2, den: 10 };
    // two tenths of 512 are 102.4
    assert!(low.is_undershot_by(102, 512));
    assert!(!low.is_undershot_by(103, 512));
    assert!(!low.is_undershot_by(0, 0));
    let half = Watermark { num: 1, den: 2 };
    assert!(!half.is_exceeded_by(5, 10));
    assert!(!half.is_undershot_by(5, 10));
    assert!(half.is_exceeded_by(usize::MAX, usize::MAX));
}

#[test]
fn reads_do_not_starve_while_no_write_waits() {
    let (ddr4, mut controller) = default_controller();
    controller.running_mode = RunningMode::Writing;
    controller.try_enqueue(decoded(ReqType::Read, [0, 0, 0, 0, 0, 0])).unwrap();
    assert_eq!(controller.write_queue.size(), 0);
    controller.tick(&ddr4, 0);
    assert_eq!(controller.running_mode, RunningMode::Reading);
    // and the read was served in that cycle
    assert_eq!(controller.act_queue.size(), 1);
}

#[test]
fn the_mode_follows_the_watermarks() {
    let (ddr4, mut controller) = default_controller();
    let far = 1 << 40;
    // reading, something to read, 410 writes waiting: writes go first
    controller.try_enqueue(decoded(ReqType::Read, [0, 0, 0, 0, 0, 0])).unwrap();
    for i in 0..409 {
        controller.try_enqueue(decoded(ReqType::Write, [0, 0, 1, 0, 0, i % 128])).unwrap();
    }
    // all clocks are far in the future, so that nothing issues
    hold_back(&mut controller.channel, far);
    controller.tick(&ddr4, 0);
    assert_eq!(controller.running_mode, RunningMode::Reading);
    controller.try_enqueue(decoded(ReqType::Write, [0, 0, 1, 0, 0, 0])).unwrap();
    controller.tick(&ddr4, 1);
    assert_eq!(controller.running_mode, RunningMode::Writing);
    // writing stays until fewer than 102.4 writes wait
    controller.tick(&ddr4, 2);
    assert_eq!(controller.running_mode, RunningMode::Writing);
    while controller.write_queue.size() > 103 {
        controller.write_queue.queue.pop_back();
    }
    controller.tick(&ddr4, 3);
    assert_eq!(controller.running_mode, RunningMode::Writing);
    controller.write_queue.queue.pop_back();
    assert_eq!(controller.write_queue.size(), 102);
    controller.tick(&ddr4, 4);
    assert_eq!(controller.running_mode, RunningMode::Reading);
    // with nothing to read the controller writes
    controller.read_queue.queue.clear();
    controller.tick(&ddr4, 5);
    assert_eq!(controller.running_mode, RunningMode::Writing);
    // and keeps writing while there is nothing to read
    controller.write_queue.queue.clear();
    controller.tick(&ddr4, 6);
    assert_eq!(controller.running_mode, RunningMode::Writing);
}

fn hold_back(dram: &mut Dram<DDR4>, until: u64) {
    for clk in dram.next_clk.iter_mut() {
        *clk = until;
    }
    for child in dram.children.iter_mut() {
        hold_back(child, until);
    }
}

#[test]
fn one_command_issues_in_a_cycle_at_most() {
    let (ddr4, mut controller) = default_controller();
    // four requests to four banks, all of them ready to activate at once
    for bank in 0..4 {
        controller.try_enqueue(decoded(ReqType::Read, [0, 0, bank, 0, 0, 0])).unwrap();
    }
    for clk in 0..4 {
        let before: usize = (0..4)
            .map(|g| (controller.channel.children[0].children[g].children[0].state != State::Closed) as usize)
            .sum();
        controller.tick(&ddr4, clk);
        let after: usize = (0..4)
            .map(|g| (controller.channel.children[0].children[g].children[0].state != State::Closed) as usize)
            .sum();
        assert_eq!(after, before + 1);
        assert_eq!(controller.act_queue.size(), after);
        assert_eq!(controller.read_queue.size(), 4 - after);
    }
    // a cycle with nothing ready issues nothing
    let mut before = Vec::new();
    clocks_of(&controller.channel, &mut before);
    let issued = issues_of(&controller.channel);
    controller.tick(&ddr4, 4);
    let mut after = Vec::new();
    clocks_of(&controller.channel, &mut after);
    assert_eq!(before, after);
    assert_eq!(issues_of(&controller.channel), issued);
}

#[test]
fn an_activated_request_goes_first() {
    let (ddr4, mut controller) = default_controller();
    controller.try_enqueue(decoded(ReqType::Read, [0, 0, 0, 0, 0, 0])).unwrap();
    controller.try_enqueue(decoded(ReqType::Read, [0, 0, 1, 0, 0, 0])).unwrap();
    controller.tick(&ddr4, 0);
    controller.tick(&ddr4, 1);
    assert_eq!(controller.act_queue.size(), 2);
    controller.try_enqueue(decoded(ReqType::Read, [0, 0, 2, 0, 0, 0])).unwrap();
    // at cycle 16 the first read is ready and goes before the activation
    // that the third request waits for
    for clk in 2..16 {
        // the third request activates at cycle 2 already
        controller.tick(&ddr4, clk);
    }
    assert_eq!(controller.act_queue.size(), 3);
    controller.tick(&ddr4, 16);
    assert_eq!(controller.act_queue.size(), 2);
    assert_eq!(controller.pending_queue.len(), 1);
    assert_eq!(controller.pending_queue[0].addr_vec, vec![0, 0, 0, 0, 0, 0]);
    assert_eq!(controller.pending_queue[0].finish_time, 36);
}

#[test]
fn maintenance_goes_before_reads_and_writes() {
    let (ddr4, mut controller) = default_controller();
    controller.try_enqueue(decoded(ReqType::Read, [0, 0, 0, 0, 0, 0])).unwrap();
    controller.other_queue.queue.push_back(decoded(ReqType::Read, [0, 0, 3, 3, 7, 0]));
    let (queue, queue_type) = controller.get_best_queue();
    assert_eq!(queue_type, QueueType::Other);
    assert_eq!(queue.size(), 1);
    controller.tick(&ddr4, 0);
    assert_eq!(controller.other_queue.size(), 0);
    assert_eq!(controller.read_queue.size(), 1);
    assert_eq!(controller.act_queue.size(), 1);
    assert_eq!(controller.act_queue.queue[0].addr_vec, vec![0, 0, 3, 3, 7, 0]);
    let (_, queue_type) = controller.get_best_queue();
    assert_eq!(queue_type, QueueType::Read);
    controller.running_mode = RunningMode::Writing;
    let (_, queue_type) = controller.get_best_queue();
    assert_eq!(queue_type, QueueType::Write);
}

#[test]
fn only_the_head_of_the_pending_reads_is_released() {
    let (ddr4, mut controller) = default_controller();
    let mut late = decoded(ReqType::Read, [0, 0, 0, 0, 0, 0]);
    late.finish_time = 10;
    let mut early = decoded(ReqType::Read, [0, 0, 0, 0, 0, 1]);
    early.finish_time = 5;
    controller.pending_queue.push_back(late);
    controller.pending_queue.push_back(early);
    controller.tick(&ddr4, 7);
    // the early one waits behind the head
    assert!(controller.finished_queue.is_empty());
    assert_eq!(controller.pending_queue.len(), 2);
    assert_eq!(controller.pending_queue[0].finish_time, 10);
    controller.tick(&ddr4, 10);
    assert_eq!(controller.finished_queue.len(), 1);
    controller.tick(&ddr4, 11);
    assert_eq!(controller.finished_queue.len(), 2);
    assert_eq!(controller.finished_queue[0].finish_time, 10);
    assert_eq!(controller.finished_queue[1].finish_time, 5);
}

#[test]
fn the_controller_checks_and_decodes_by_its_device() {
    let (ddr4, mut controller) = default_controller();
    let req = decoded(ReqType::Write, [0, 0, 2, 3, 4, 5]);
    assert_eq!(controller.get_first_cmd(&ddr4, &req), Command::ACT);
    assert!(controller.is_ready_cmd(&ddr4, &Command::ACT, &req.addr_vec, 0));
    controller.issue_cmd(&ddr4, Command::ACT, &req.addr_vec, 0);
    assert_eq!(controller.get_first_cmd(&ddr4, &req), Command::WR);
    assert!(!controller.is_ready_cmd(&ddr4, &Command::WR, &req.addr_vec, 15));
    assert!(controller.is_ready_cmd(&ddr4, &Command::WR, &req.addr_vec, 16));
    assert_eq!(controller.queue(QueueType::Act).size(), 0);
    controller.write_queue.queue.push_back(req);
    assert_eq!(controller.queue(QueueType::Write).size(), 1);
    // the write was its last command
    controller.handle_after_issue(&ddr4, 0, &Command::WR, true, QueueType::Write, 16);
    assert_eq!(controller.write_queue.size(), 0);
    assert_eq!(controller.finished_queue.len(), 1);
    assert_eq!(controller.finished_queue[0].finish_time, 16);
    // a precharge moves nothing
    controller.read_queue.queue.push_back(decoded(ReqType::Read, [0, 0, 2, 3, 9, 0]));
    controller.handle_after_issue(&ddr4, 0, &Command::PRE, false, QueueType::Read, 50);
    assert_eq!(controller.read_queue.size(), 1);
    assert_eq!(controller.act_queue.size(), 0);
    // an activation moves the request to the activated ones
    controller.handle_after_issue(&ddr4, 0, &Command::ACT, false, QueueType::Read, 70);
    assert_eq!(controller.read_queue.size(), 0);
    assert_eq!(controller.act_queue.size(), 1);
    // a read that was the last command makes the request pending
    controller.handle_after_issue(&ddr4, 0, &Command::RD, true, QueueType::Act, 86);
    assert_eq!(controller.act_queue.size(), 0);
    assert_eq!(controller.pending_queue.len(), 1);
    assert_eq!(controller.pending_queue[0].finish_time, 106);
}

#[test]
fn the_queues_for_reads_and_writes_keep_to_their_capacity() {
    let (ddr4, mut controller) = default_controller();
    controller.read_queue = Queue::new(3);
    controller.write_queue = Queue::new(2);
    let mut refused = 0;
    for clk in 0..200u64 {
        for column in 0..2 {
            let read = decoded(ReqType::Read, [0, 0, clk % 4, 0, clk % 7, column]);
            if controller.try_enqueue(read).is_err() {
                refused += 1;
            }
            let write = decoded(ReqType::Write, [0, 0, clk % 4, 1, clk % 5, column]);
            if controller.try_enqueue(write).is_err() {
                refused += 1;
            }
        }
        assert!(controller.read_queue.size() <= 3);
        assert!(controller.write_queue.size() <= 2);
        controller.tick(&ddr4, clk);
        assert!(controller.read_queue.size() <= 3);
        assert!(controller.write_queue.size() <= 2);
    }
    assert!(refused > 0);
    assert!(!controller.finished_queue.is_empty());
}

#[test]
fn the_queue_to_serve_can_be_changed_in_place() {
    let (_ddr4, mut controller) = default_controller();
    controller.get_best_queue_mut().queue.push_back(decoded(ReqType::Read, [0, 0, 0, 0, 0, 0]));
    assert_eq!(controller.read_queue.size(), 1);
    controller.running_mode = RunningMode::Writing;
    controller.get_best_queue_mut().max = 7;
    assert_eq!(controller.write_queue.max, 7);
    controller.other_queue.queue.push_back(decoded(ReqType::Read, [0, 0, 0, 0, 0, 0]));
    controller.get_best_queue_mut().queue.clear();
    assert_eq!(controller.other_queue.size(), 0);
    assert_eq!(controller.read_queue.size(), 1);
}

#[test]
fn all_finished_requests_are_handed_over_at_once() {
    let (_ddr4, mut controller) = default_controller();
    for column in 0..3 {
        controller.finished_queue.push_back(decoded(ReqType::Read, [0, 0, 0, 0, 0, column]));
    }
    controller.pending_queue.push_back(decoded(ReqType::Read, [0, 0, 0, 0, 0, 9]));
    let mut taken = std::collections::VecDeque::new();
    taken.push_back(decoded(ReqType::Write, [0, 0, 0, 0, 0, 7]));
    controller.drain_finished(&mut taken);
    assert!(controller.finished_queue.is_empty());
    assert_eq!(controller.pending_queue.len(), 1);
    let columns: Vec<u64> = taken.iter().map(|req| req.addr_vec[5]).collect();
    assert_eq!(columns, vec![7, 0, 1, 2]);
    controller.drain_finished(&mut taken);
    assert_eq!(taken.len(), 4);
}
