use ramu_rs::config::Config;
use ramu_rs::ddr4::{Command, Level, Speed, DDR4};
use ramu_rs::dram::{Dram, LevelTrait, State};
use ramu_rs::request::ReqType;

fn bank<'a>(dram: &'a Dram<DDR4>, rank: usize, group: usize, bank: usize) -> &'a Dram<DDR4> {
    &dram.children[rank].children[group].children[bank]
}

fn clocks_of(dram: &Dram<DDR4>, out: &mut Vec<u64>) {
    out.extend(dram.next_clk.iter());
    for child in dram.children.iter() {
        clocks_of(child, out);
    }
}

#[test]
fn a_fresh_tree_has_a_node_for_every_bank() {
    let config = Config { ranks: 2, ..Config::default() };
    let ddr4 = DDR4::new(&config);
    let dram = Dram::new(&ddr4, Level::channel(), 3);
    assert_eq!(dram.level, Level::Channel);
    assert_eq!(dram.id, 3);
    assert_eq!(dram.state, State::NoUse);
    assert_eq!(dram.children.len(), 2);
    for (r, rank) in dram.children.iter().enumerate() {
        assert_eq!((rank.level, rank.id, rank.state), (Level::Rank, r, State::PowerUp));
        assert_eq!(rank.children.len(), 4);
        for (g, group) in rank.children.iter().enumerate() {
            assert_eq!((group.level, group.id, group.state), (Level::BankGroup, g, State::NoUse));
            assert_eq!(group.children.len(), 4);
            for (b, bank) in group.children.iter().enumerate() {
                assert_eq!((bank.level, bank.id, bank.state), (Level::Bank, b, State::Closed));
                // rows and columns have no nodes
                assert!(bank.children.is_empty());
            }
        }
    }
    let mut clocks = Vec::new();
    clocks_of(&dram, &mut clocks);
    assert_eq!(clocks.len(), 12 * (1 + 2 + 8 + 32));
    assert!(clocks.iter().all(|clk| *clk == 0));
}

#[test]
fn the_history_is_as_long_as_the_table_looks_back() {
    let ddr4 = DDR4::new(&Config::default());
    let dram = Dram::new(&ddr4, Level::channel(), 0);
    let rank = &dram.children[0];
    let act = Command::ACT as usize;
    let rd = Command::RD as usize;
    let pre = Command::PRE as usize;
    assert_eq!(dram.prev.len(), 12);
    // the window of four activations at the rank
    assert_eq!(rank.prev[act].len(), 4);
    assert!(rank.prev[act].iter().all(|clk| *clk == u64::MAX));
    assert_eq!(rank.prev[rd].len(), 1);
    assert_eq!(dram.prev[act].len(), 0);
    assert_eq!(dram.prev[rd].len(), 1);
    assert_eq!(bank(&dram, 0, 0, 0).prev[act].len(), 1);
    assert_eq!(bank(&dram, 0, 0, 0).prev[pre].len(), 1);
    assert_eq!(bank(&dram, 0, 0, 0).prev[Command::REF as usize].len(), 0);
}

#[test]
fn a_read_needs_its_row_open() {
    let ddr4 = DDR4::new(&Config::default());
    let mut dram = Dram::new(&ddr4, Level::channel(), 0);
    let first = dram.get_first_cmd(&ReqType::Read);
    assert_eq!(first, Command::RD);
    assert_eq!(dram.get_first_cmd(&ReqType::Write), Command::WR);
    let addr_vec = [0, 0, 1, 2, 7, 0];
    // the bank is closed: activate
    assert_eq!(dram.decode(&ddr4, &Command::RD, &addr_vec), Command::ACT);
    assert_eq!(dram.decode(&ddr4, &Command::WR, &addr_vec), Command::ACT);
    dram.update(&ddr4, &Command::ACT, &addr_vec, 0);
    assert_eq!(bank(&dram, 0, 1, 2).state, State::Opened(7));
    // the row is open: go on
    assert_eq!(dram.decode(&ddr4, &Command::RD, &addr_vec), Command::RD);
    assert_eq!(dram.decode(&ddr4, &Command::WR, &[0, 0, 1, 2, 7, 99]), Command::WR);
    // another row is open: precharge
    assert_eq!(dram.decode(&ddr4, &Command::RD, &[0, 0, 1, 2, 8, 0]), Command::PRE);
    // another bank is still closed
    assert_eq!(dram.decode(&ddr4, &Command::RD, &[0, 0, 1, 3, 7, 0]), Command::ACT);
    dram.update(&ddr4, &Command::PRE, &addr_vec, 100);
    assert_eq!(bank(&dram, 0, 1, 2).state, State::Closed);
    assert_eq!(dram.decode(&ddr4, &Command::RD, &addr_vec), Command::ACT);
}

#[test]
fn commands_without_a_precursor_stay_as_they_are() {
    let ddr4 = DDR4::new(&Config::default());
    let dram = Dram::new(&ddr4, Level::channel(), 0);
    let addr_vec = [0, 0, 0, 0, 0, 0];
    for cmd in [Command::ACT, Command::PRE, Command::PREA, Command::RDA, Command::WRA] {
        assert_eq!(dram.decode(&ddr4, &cmd, &addr_vec), cmd);
    }
    for cmd in [Command::PDX, Command::SRX] {
        assert_eq!(dram.decode(&ddr4, &cmd, &addr_vec), cmd);
    }
}

#[test]
fn a_refresh_needs_all_banks_closed() {
    let ddr4 = DDR4::new(&Config::default());
    let mut dram = Dram::new(&ddr4, Level::channel(), 0);
    let addr_vec = [0, 0, 3, 1, 5, 0];
    assert_eq!(dram.decode(&ddr4, &Command::REF, &addr_vec), Command::REF);
    dram.update(&ddr4, &Command::ACT, &addr_vec, 0);
    assert_eq!(dram.decode(&ddr4, &Command::REF, &[0, 0, 0, 0, 0, 0]), Command::PREA);
    dram.update(&ddr4, &Command::ACT, &[0, 0, 0, 0, 9, 0], 10);
    dram.update(&ddr4, &Command::PREA, &[0, 0, 0, 0, 0, 0], 100);
    assert_eq!(bank(&dram, 0, 3, 1).state, State::Closed);
    assert_eq!(bank(&dram, 0, 0, 0).state, State::Closed);
    assert_eq!(dram.decode(&ddr4, &Command::REF, &addr_vec), Command::REF);
    // a refresh itself changes no state
    dram.update(&ddr4, &Command::REF, &addr_vec, 200);
    assert_eq!(dram.children[0].state, State::PowerUp);
    assert_eq!(bank(&dram, 0, 3, 1).state, State::Closed);
}

#[test]
fn the_power_states_of_a_rank_have_their_way_out() {
    let ddr4 = DDR4::new(&Config::default());
    let mut dram = Dram::new(&ddr4, Level::channel(), 0);
    let addr_vec = [0, 0, 0, 0, 0, 0];
    // powered up
    assert_eq!(dram.decode(&ddr4, &Command::PDE, &addr_vec), Command::PDE);
    assert_eq!(dram.decode(&ddr4, &Command::SRE, &addr_vec), Command::SRE);
    // power down with all banks closed
    dram.update(&ddr4, &Command::PDE, &addr_vec, 0);
    assert_eq!(dram.children[0].state, State::PrePowerDown);
    assert_eq!(dram.decode(&ddr4, &Command::RD, &addr_vec), Command::PDX);
    assert_eq!(dram.decode(&ddr4, &Command::WR, &addr_vec), Command::PDX);
    assert_eq!(dram.decode(&ddr4, &Command::SRE, &addr_vec), Command::PDX);
    assert_eq!(dram.decode(&ddr4, &Command::PDE, &addr_vec), Command::PDE);
    dram.update(&ddr4, &Command::PDX, &addr_vec, 10);
    assert_eq!(dram.children[0].state, State::PowerUp);
    // power down with a bank open
    dram.update(&ddr4, &Command::ACT, &[0, 0, 2, 2, 4, 0], 20);
    dram.update(&ddr4, &Command::PDE, &addr_vec, 30);
    assert_eq!(dram.children[0].state, State::ActPowerDown);
    assert_eq!(dram.decode(&ddr4, &Command::RD, &[0, 0, 2, 2, 4, 0]), Command::PDX);
    dram.update(&ddr4, &Command::PDX, &addr_vec, 40);
    assert_eq!(dram.decode(&ddr4, &Command::RD, &[0, 0, 2, 2, 4, 0]), Command::RD);
    // self refresh
    dram.update(&ddr4, &Command::SRE, &addr_vec, 50);
    assert_eq!(dram.children[0].state, State::SelfRefresh);
    assert_eq!(dram.decode(&ddr4, &Command::RD, &addr_vec), Command::SRX);
    assert_eq!(dram.decode(&ddr4, &Command::PDE, &addr_vec), Command::SRX);
    assert_eq!(dram.decode(&ddr4, &Command::SRE, &addr_vec), Command::SRX);
    dram.update(&ddr4, &Command::SRX, &addr_vec, 60);
    assert_eq!(dram.children[0].state, State::PowerUp);
}

#[test]
fn reads_and_writes_with_precharge_close_the_bank() {
    let ddr4 = DDR4::new(&Config::default());
    let mut dram = Dram::new(&ddr4, Level::channel(), 0);
    let addr_vec = [0, 0, 1, 1, 3, 0];
    dram.update(&ddr4, &Command::ACT, &addr_vec, 0);
    dram.update(&ddr4, &Command::RD, &addr_vec, 16);
    assert_eq!(bank(&dram, 0, 1, 1).state, State::Opened(3));
    dram.update(&ddr4, &Command::RDA, &addr_vec, 30);
    assert_eq!(bank(&dram, 0, 1, 1).state, State::Closed);
    dram.update(&ddr4, &Command::ACT, &addr_vec, 100);
    dram.update(&ddr4, &Command::WR, &addr_vec, 116);
    assert_eq!(bank(&dram, 0, 1, 1).state, State::Opened(3));
    dram.update(&ddr4, &Command::WRA, &addr_vec, 130);
    assert_eq!(bank(&dram, 0, 1, 1).state, State::Closed);
    // no other bank was touched
    assert_eq!(bank(&dram, 0, 1, 0).state, State::Closed);
    dram.update(&ddr4, &Command::ACT, &addr_vec, 200);
    dram.update(&ddr4, &Command::ACT, &[0, 0, 1, 0, 8, 0], 210);
    dram.update(&ddr4, &Command::PRE, &addr_vec, 300);
    assert_eq!(bank(&dram, 0, 1, 1).state, State::Closed);
    assert_eq!(bank(&dram, 0, 1, 0).state, State::Opened(8));
}

#[test]
fn an_activation_delays_the_commands_of_its_bank() {
    let ddr4 = DDR4::new(&Config::default());
    let mut dram = Dram::new(&ddr4, Level::channel(), 0);
    let addr_vec = [0, 0, 2, 1, 7, 0];
    assert!(dram.check(&ddr4, &Command::ACT, &addr_vec, 0));
    dram.update(&ddr4, &Command::ACT, &addr_vec, 100);
    let bank = bank(&dram, 0, 2, 1);
    assert_eq!(bank.get_next_avaliable_clk(&Command::RD), 116);
    assert_eq!(bank.get_next_avaliable_clk(&Command::WR), 116);
    assert_eq!(bank.get_next_avaliable_clk(&Command::RDA), 116);
    assert_eq!(bank.get_next_avaliable_clk(&Command::WRA), 116);
    assert_eq!(bank.get_next_avaliable_clk(&Command::PRE), 139);
    assert_eq!(bank.get_next_avaliable_clk(&Command::ACT), 155);
    assert_eq!(bank.prev[Command::ACT as usize][0], 100);
    let rank = &dram.children[0];
    assert_eq!(rank.get_next_avaliable_clk(&Command::PREA), 139);
    assert_eq!(rank.get_next_avaliable_clk(&Command::REF), 155);
    assert_eq!(rank.get_next_avaliable_clk(&Command::PDE), 101);
    assert_eq!(rank.get_next_avaliable_clk(&Command::ACT), 100);
    assert_eq!(rank.prev[Command::ACT as usize].iter().copied().collect::<Vec<u64>>(), vec![
        100,
        u64::MAX,
        u64::MAX,
        u64::MAX
    ]);
    // the other banks are free
    assert_eq!(dram.children[0].children[2].children[0].get_next_avaliable_clk(&Command::RD), 0);
    assert_eq!(dram.children[0].children[1].children[1].get_next_avaliable_clk(&Command::ACT), 0);
    // a read waits for the row
    assert!(!dram.check(&ddr4, &Command::RD, &addr_vec, 115));
    assert!(dram.check(&ddr4, &Command::RD, &addr_vec, 116));
    assert!(!dram.check(&ddr4, &Command::PRE, &addr_vec, 138));
    assert!(dram.check(&ddr4, &Command::PRE, &addr_vec, 139));
    // a command of the rank is checked at the rank only
    assert!(!dram.check(&ddr4, &Command::PREA, &addr_vec, 138));
    assert!(dram.check(&ddr4, &Command::PREA, &addr_vec, 139));
    // another bank may activate at once
    assert!(dram.check(&ddr4, &Command::ACT, &[0, 0, 2, 0, 7, 0], 100));
    assert!(!dram.check(&ddr4, &Command::ACT, &addr_vec, 154));
    assert!(dram.check(&ddr4, &Command::ACT, &addr_vec, 155));
}

#[test]
fn a_read_delays_the_commands_on_its_way() {
    let ddr4 = DDR4::new(&Config::default());
    let mut dram = Dram::new(&ddr4, Level::channel(), 0);
    let addr_vec = [0, 0, 2, 1, 7, 0];
    dram.update(&ddr4, &Command::ACT, &addr_vec, 0);
    dram.update(&ddr4, &Command::RD, &addr_vec, 100);
    // the channel: the burst
    assert_eq!(dram.get_next_avaliable_clk(&Command::RD), 104);
    assert_eq!(dram.get_next_avaliable_clk(&Command::RDA), 104);
    assert_eq!(dram.get_next_avaliable_clk(&Command::WR), 0);
    let rank = &dram.children[0];
    assert_eq!(rank.get_next_avaliable_clk(&Command::RD), 104);
    assert_eq!(rank.get_next_avaliable_clk(&Command::WR), 110);
    assert_eq!(rank.get_next_avaliable_clk(&Command::WRA), 110);
    assert_eq!(rank.get_next_avaliable_clk(&Command::PREA), 109);
    assert_eq!(rank.get_next_avaliable_clk(&Command::PDE), 121);
    let group = &rank.children[2];
    assert_eq!(group.get_next_avaliable_clk(&Command::RD), 106);
    assert_eq!(rank.children[1].get_next_avaliable_clk(&Command::RD), 0);
    let bank = &group.children[1];
    assert_eq!(bank.get_next_avaliable_clk(&Command::PRE), 109);
    assert_eq!(bank.get_next_avaliable_clk(&Command::RD), 16);
    // a read in the same bank group waits for nCCDL, one in another for nCCDS
    assert!(!dram.check(&ddr4, &Command::RD, &[0, 0, 2, 1, 7, 1], 105));
    assert!(dram.check(&ddr4, &Command::RD, &[0, 0, 2, 1, 7, 1], 106));
    assert!(!dram.check(&ddr4, &Command::RD, &[0, 0, 1, 1, 7, 1], 103));
    assert!(dram.check(&ddr4, &Command::RD, &[0, 0, 1, 1, 7, 1], 104));
}

#[test]
fn a_write_turns_the_bus_around() {
    let ddr4 = DDR4::new(&Config::default());
    let mut dram = Dram::new(&ddr4, Level::channel(), 0);
    let addr_vec = [0, 0, 2, 1, 7, 0];
    dram.update(&ddr4, &Command::WR, &addr_vec, 100);
    let rank = &dram.children[0];
    assert_eq!(dram.get_next_avaliable_clk(&Command::WR), 104);
    assert_eq!(dram.get_next_avaliable_clk(&Command::RD), 0);
    assert_eq!(rank.get_next_avaliable_clk(&Command::WR), 104);
    assert_eq!(rank.get_next_avaliable_clk(&Command::RD), 119);
    assert_eq!(rank.get_next_avaliable_clk(&Command::PREA), 134);
    assert_eq!(rank.children[2].get_next_avaliable_clk(&Command::WR), 106);
    assert_eq!(rank.children[2].get_next_avaliable_clk(&Command::RD), 125);
    assert_eq!(rank.children[2].children[1].get_next_avaliable_clk(&Command::PRE), 134);
}

#[test]
fn the_sibling_ranks_wait_for_the_bus() {
    let config = Config { ranks: 2, ..Config::default() };
    let ddr4 = DDR4::new(&config);
    let mut dram = Dram::new(&ddr4, Level::channel(), 0);
    dram.update(&ddr4, &Command::RD, &[0, 1, 0, 0, 0, 0], 100);
    let addressed = &dram.children[1];
    let sibling = &dram.children[0];
    assert_eq!(addressed.get_next_avaliable_clk(&Command::RD), 104);
    assert_eq!(addressed.prev[Command::RD as usize][0], 100);
    // nBL + nRTRS for a read, and the turnaround for a write
    assert_eq!(sibling.get_next_avaliable_clk(&Command::RD), 106);
    assert_eq!(sibling.get_next_avaliable_clk(&Command::RDA), 106);
    assert_eq!(sibling.get_next_avaliable_clk(&Command::WR), 110);
    assert_eq!(sibling.get_next_avaliable_clk(&Command::WRA), 110);
    assert_eq!(sibling.get_next_avaliable_clk(&Command::PREA), 0);
    // the sibling records nothing, and nothing below it changes
    assert_eq!(sibling.prev[Command::RD as usize][0], u64::MAX);
    let mut below = Vec::new();
    for group in sibling.children.iter() {
        clocks_of(group, &mut below);
    }
    assert!(below.iter().all(|clk| *clk == 0));
    // a tree of another channel takes the delays for siblings of a channel,
    // of which there are none
    let mut other = Dram::new(&ddr4, Level::channel(), 1);
    other.update(&ddr4, &Command::RD, &[0, 1, 0, 0, 0, 0], 100);
    let mut clocks = Vec::new();
    clocks_of(&other, &mut clocks);
    assert!(clocks.iter().all(|clk| *clk == 0));
}

#[test]
fn the_fourth_activation_waits_for_the_window() {
    let config = Config { ddr4_speed: Speed::DDR4_3200, ..Config::default() };
    let ddr4 = DDR4::new(&config);
    let mut dram = Dram::new(&ddr4, Level::channel(), 0);
    let act = Command::ACT;
    dram.update(&ddr4, &act, &[0, 0, 0, 0, 1, 0], 0);
    assert_eq!(dram.children[0].get_next_avaliable_clk(&act), 8);
    dram.update(&ddr4, &act, &[0, 0, 1, 0, 1, 0], 10);
    dram.update(&ddr4, &act, &[0, 0, 2, 0, 1, 0], 20);
    // three activations: only nRRDS counts
    assert_eq!(dram.children[0].get_next_avaliable_clk(&act), 28);
    dram.update(&ddr4, &act, &[0, 0, 3, 0, 1, 0], 30);
    // four activations: nFAW after the first of them
    assert_eq!(dram.children[0].get_next_avaliable_clk(&act), 40);
    assert_eq!(
        dram.children[0].prev[Command::ACT as usize].iter().copied().collect::<Vec<u64>>(),
        vec![30, 20, 10, 0]
    );
    dram.update(&ddr4, &act, &[0, 0, 0, 1, 1, 0], 50);
    // the oldest activation has left the window
    assert_eq!(
        dram.children[0].prev[Command::ACT as usize].iter().copied().collect::<Vec<u64>>(),
        vec![50, 30, 20, 10]
    );
    assert_eq!(dram.children[0].get_next_avaliable_clk(&act), 58);
    // in the same bank group nRRDL counts
    assert_eq!(dram.children[0].children[0].get_next_avaliable_clk(&act), 60);
}

#[test]
fn no_clock_goes_back() {
    let config = Config { ranks: 2, ..Config::default() };
    let ddr4 = DDR4::new(&config);
    let mut dram = Dram::new(&ddr4, Level::channel(), 0);
    let issues: [(Command, [u64; 6], u64); 9] = [
        (Command::ACT, [0, 0, 1, 2, 3, 0], 5),
        (Command::RD, [0, 0, 1, 2, 3, 0], 30),
        (Command::ACT, [0, 1, 0, 0, 9, 0], 31),
        (Command::WR, [0, 1, 0, 0, 9, 4], 60),
        (Command::PRE, [0, 0, 1, 2, 3, 0], 70),
        (Command::PREA, [0, 1, 0, 0, 0, 0], 200),
        (Command::REF, [0, 1, 0, 0, 0, 0], 300),
        // an issue in the past of the clocks lowers none of them either
        (Command::ACT, [0, 0, 1, 2, 3, 0], 80),
        (Command::PDE, [0, 0, 0, 0, 0, 0], 0),
    ];
    let mut before = Vec::new();
    clocks_of(&dram, &mut before);
    for (cmd, addr_vec, clk) in issues {
        dram.update(&ddr4, &cmd, &addr_vec, clk);
        let mut after = Vec::new();
        clocks_of(&dram, &mut after);
        assert_eq!(before.len(), after.len());
        assert!(before.iter().zip(after.iter()).all(|(old, new)| old <= new));
        before = after;
    }
}

#[test]
fn an_issue_holds_back_what_its_entries_name() {
    let ddr4 = DDR4::new(&Config::default());
    let mut dram = Dram::new(&ddr4, Level::channel(), 0);
    let addr_vec = [0, 0, 1, 2, 3, 0];
    dram.update(&ddr4, &Command::ACT, &addr_vec, 0);
    let clk = 1000;
    assert!(dram.check(&ddr4, &Command::RD, &addr_vec, clk));
    // ready means that no node on the way makes the read wait
    assert!(dram.get_next_avaliable_clk(&Command::RD) <= clk);
    assert!(dram.children[0].get_next_avaliable_clk(&Command::RD) <= clk);
    assert!(dram.children[0].children[1].get_next_avaliable_clk(&Command::RD) <= clk);
    assert!(bank(&dram, 0, 1, 2).get_next_avaliable_clk(&Command::RD) <= clk);
    dram.update(&ddr4, &Command::RD, &addr_vec, clk);
    // the next read has to wait at every node that delays reads after reads
    assert!(dram.get_next_avaliable_clk(&Command::RD) > clk);
    assert!(dram.children[0].get_next_avaliable_clk(&Command::RD) > clk);
    assert!(dram.children[0].children[1].get_next_avaliable_clk(&Command::RD) > clk);
    assert!(!dram.check(&ddr4, &Command::RD, &addr_vec, clk));
}

#[test]
fn a_bank_is_open_as_the_last_command_at_it_says() {
    let config = Config { ranks: 2, ..Config::default() };
    let ddr4 = DDR4::new(&config);
    let mut dram = Dram::new(&ddr4, Level::channel(), 0);
    // the commands of a run, each with its coordinates
    let run: [(Command, [u64; 6]); 14] = [
        (Command::ACT, [0, 0, 1, 2, 30, 0]),
        (Command::RD, [0, 0, 1, 2, 30, 4]),
        (Command::ACT, [0, 1, 1, 2, 31, 0]),
        (Command::ACT, [0, 0, 1, 3, 32, 0]),
        (Command::PRE, [0, 0, 1, 2, 30, 0]),
        (Command::ACT, [0, 0, 1, 2, 33, 0]),
        (Command::WRA, [0, 0, 1, 3, 32, 1]),
        (Command::PDE, [0, 0, 0, 0, 0, 0]),
        (Command::PDX, [0, 0, 0, 0, 0, 0]),
        (Command::PREA, [0, 1, 0, 0, 0, 0]),
        (Command::REF, [0, 1, 0, 0, 0, 0]),
        (Command::ACT, [0, 1, 3, 3, 34, 0]),
        (Command::RDA, [0, 1, 3, 3, 34, 0]),
        (Command::ACT, [0, 0, 1, 2, 35, 0]),
    ];
    for (n, (cmd, addr_vec)) in run.iter().enumerate() {
        dram.update(&ddr4, cmd, addr_vec, 100 * n as u64);
        for rank in 0..2usize {
            for group in 0..4usize {
                for index in 0..4usize {
                    // the last command so far that opened a row in the bank
                    // or closed the bank
                    let mut expected = State::Closed;
                    for (cmd, at) in run[..=n].iter() {
                        let here = [at[1], at[2], at[3]] == [rank as u64, group as u64, index as u64];
                        match cmd {
                            Command::ACT if here => expected = State::Opened(at[4]),
                            Command::PRE | Command::RDA | Command::WRA if here => {
                                expected = State::Closed
                            }
                            Command::PREA | Command::REF if at[1] == rank as u64 => {
                                expected = State::Closed
                            }
                            _ => {}
                        }
                    }
                    assert_eq!(bank(&dram, rank, group, index).state, expected);
                }
            }
        }
    }
    assert_eq!(bank(&dram, 0, 1, 2).state, State::Opened(35));
    assert_eq!(bank(&dram, 0, 1, 3).state, State::Closed);
    assert_eq!(bank(&dram, 1, 1, 2).state, State::Closed);
    assert_eq!(bank(&dram, 1, 3, 3).state, State::Closed);
}

#[test]
fn the_histories_run_from_the_latest_issue_to_the_earliest() {
    let config = Config { ddr4_speed: Speed::DDR4_3200, ..Config::default() };
    let ddr4 = DDR4::new(&config);
    let mut dram = Dram::new(&ddr4, Level::channel(), 0);
    fn ordered(dram: &Dram<DDR4>) -> bool {
        dram.prev.iter().all(|history| {
            let cycles: Vec<u64> = history.iter().copied().collect();
            cycles.windows(2).all(|w| w[1] == u64::MAX || (w[0] != u64::MAX && w[0] >= w[1]))
        }) && dram.children.iter().all(ordered)
    }
    assert!(ordered(&dram));
    for n in 0..40u64 {
        let addr_vec = [0, 0, n % 4, (n / 4) % 4, n, 0];
        dram.update(&ddr4, &Command::ACT, &addr_vec, 10 * n);
        assert!(ordered(&dram));
        dram.update(&ddr4, &Command::RD, &addr_vec, 10 * n + 5);
        assert!(ordered(&dram));
    }
}
