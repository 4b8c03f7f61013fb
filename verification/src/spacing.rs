//! How far apart the reads of a DDR4 bank lie: a read of the open row
//! follows a read in its bank group after the delay between column
//! commands of a group, and a read of another row of the bank has to wait
//! for the precharge, the activation and the row.
use vstd::prelude::*;
use crate::clocks::{lemma_delay_outlasts_run, lemma_on_path_exists, lemma_run_lowers_no_clock};
use crate::ddr4::{lemma_counts, Command, Level, SpeedEntry, DDR4};
use crate::dram::{DramSpec, LevelTrait};
use crate::model::{addr_ok, after_all, lemma_after_state_wf, lemma_after_timing_wf, DramModel, Issued};

verus! {

/// The device has the timing table of the timing parameters `s`.
pub open spec fn has_timing(spec: DDR4, s: SpeedEntry) -> bool {
    &&& s.wf()
    &&& forall|level: Level, cmd: Command| #[trigger]
        spec.timing(level, cmd) == DDR4::timing_rules(s, level, cmd)
}

/// The coordinates name the same bank group.
pub open spec fn same_group(a: Seq<u64>, b: Seq<u64>) -> bool {
    a[1] == b[1] && a[2] == b[2]
}

/// The coordinates name the same bank.
pub open spec fn same_bank(a: Seq<u64>, b: Seq<u64>) -> bool {
    same_group(a, b) && a[3] == b[3]
}

/// The tree of a channel after `cmd` was issued at `clk` and the issues of
/// `trace` after it.
pub open spec fn then(
    spec: DDR4,
    channel: DramModel<DDR4>,
    cmd: Command,
    addr_vec: Seq<u64>,
    clk: u64,
    trace: Seq<Issued<DDR4>>,
) -> DramModel<DDR4> {
    after_all(spec, channel.after_issue(spec, cmd, addr_vec, clk), trace)
}

/// A tree in the shape of the device stays in that shape through an issue
/// and a run of issues.
pub proof fn lemma_then_shaped(
    spec: DDR4,
    channel: DramModel<DDR4>,
    cmd: Command,
    addr_vec: Seq<u64>,
    clk: u64,
    trace: Seq<Issued<DDR4>>,
)
    requires
        channel.shaped(spec),
    ensures
        then(spec, channel, cmd, addr_vec, clk, trace).shaped(spec),
        then(spec, channel, cmd, addr_vec, clk, trace).level == channel.level,
        then(spec, channel, cmd, addr_vec, clk, trace).id == channel.id,
{
    let issued = channel.after_issue(spec, cmd, addr_vec, clk);
    lemma_after_state_wf(spec, channel, cmd, addr_vec);
    lemma_after_timing_wf(spec, channel.after_state(spec, cmd, addr_vec), cmd, addr_vec, clk);
    crate::clocks::lemma_issue_lowers_no_clock(spec, channel, cmd, addr_vec, clk);
    lemma_run_lowers_no_clock(spec, issued, trace);
}

/// Reads in a bank group keep their distance: after a read at `clk`, a
/// read in the same bank group is ready no earlier than nCCDL cycles
/// later, whatever was issued in between.
pub proof fn lemma_reads_of_a_group_keep_nccdl(
    spec: DDR4,
    s: SpeedEntry,
    channel: DramModel<DDR4>,
    first: Seq<u64>,
    clk: u64,
    trace: Seq<Issued<DDR4>>,
    second: Seq<u64>,
    later: u64,
)
    requires
        has_timing(spec, s),
        s.nCCDL > 0,
        channel.shaped(spec),
        channel.level == Level::Channel,
        addr_ok(spec, first),
        first[0] == channel.id,
        same_group(first, second),
        clk + s.nCCDL <= u64::MAX,
        then(spec, channel, Command::RD, first, clk, trace).ready(spec, Command::RD, second, later),
    ensures
        later >= clk + s.nCCDL,
{
    lemma_counts();
    lemma_on_path_exists(spec, channel, first, 2);
    let group = channel.on_path(first, 2).unwrap();
    Level::lemma_level_by_index(group.level, Level::BankGroup);
    assert(spec.timing(Level::BankGroup, Command::RD) == DDR4::bank_group_rules(s, Command::RD));
    lemma_delay_outlasts_run(spec, channel, Command::RD, first, clk, 2, 0, trace, second, later);
}

/// A read of another row of a bank waits for precharge, activation and row.
/// After a read of a bank at `read`, let the bank be precharged at
/// `precharge`, activated at `activate` and read again at `again`, each when
/// the device was ready for it, and let anything be issued in between. Then
/// there are nRTP cycles at least from the read to the precharge, nRP from
/// there to the activation and nRCD from there to the second read: nRTP +
/// nRP + nRCD in all.
pub proof fn lemma_row_miss_takes_precharge_and_activation(
    spec: DDR4,
    s: SpeedEntry,
    channel: DramModel<DDR4>,
    bank: Seq<u64>,
    read: u64,
    between_1: Seq<Issued<DDR4>>,
    precharge: u64,
    between_2: Seq<Issued<DDR4>>,
    other_row: Seq<u64>,
    activate: u64,
    between_3: Seq<Issued<DDR4>>,
    again: u64,
)
    requires
        has_timing(spec, s),
        s.nRTP > 0 && s.nRP > 0 && s.nRCD > 0,
        channel.shaped(spec),
        channel.level == Level::Channel,
        addr_ok(spec, bank),
        addr_ok(spec, other_row),
        bank[0] == channel.id,
        other_row[0] == channel.id,
        same_bank(bank, other_row),
        read + s.nRTP <= u64::MAX,
        precharge + s.nRP <= u64::MAX,
        activate + s.nRCD <= u64::MAX,
        ({
            let read_done = then(spec, channel, Command::RD, bank, read, between_1);
            let precharged = then(spec, read_done, Command::PRE, bank, precharge, between_2);
            let activated = then(spec, precharged, Command::ACT, other_row, activate, between_3);
            &&& read_done.ready(spec, Command::PRE, bank, precharge)
            &&& precharged.ready(spec, Command::ACT, other_row, activate)
            &&& activated.ready(spec, Command::RD, other_row, again)
        }),
    ensures
        precharge >= read + s.nRTP,
        activate >= precharge + s.nRP,
        again >= activate + s.nRCD,
        again >= read + s.nRTP + s.nRP + s.nRCD,
{
    lemma_counts();
    let read_done = then(spec, channel, Command::RD, bank, read, between_1);
    let precharged = then(spec, read_done, Command::PRE, bank, precharge, between_2);
    lemma_then_shaped(spec, channel, Command::RD, bank, read, between_1);
    lemma_then_shaped(spec, read_done, Command::PRE, bank, precharge, between_2);
    assert(spec.timing(Level::Bank, Command::RD) == DDR4::bank_rules(s, Command::RD));
    assert(spec.timing(Level::Bank, Command::PRE) == DDR4::bank_rules(s, Command::PRE));
    assert(spec.timing(Level::Bank, Command::ACT) == DDR4::bank_rules(s, Command::ACT));
    // from the read to the precharge
    lemma_on_path_exists(spec, channel, bank, 3);
    Level::lemma_level_by_index(channel.on_path(bank, 3).unwrap().level, Level::Bank);
    lemma_delay_outlasts_run(
        spec,
        channel,
        Command::RD,
        bank,
        read,
        3,
        0,
        between_1,
        bank,
        precharge,
    );
    // from the precharge to the activation
    lemma_on_path_exists(spec, read_done, bank, 3);
    Level::lemma_level_by_index(read_done.on_path(bank, 3).unwrap().level, Level::Bank);
    lemma_delay_outlasts_run(
        spec,
        read_done,
        Command::PRE,
        bank,
        precharge,
        3,
        0,
        between_2,
        other_row,
        activate,
    );
    // from the activation to the read
    lemma_on_path_exists(spec, precharged, other_row, 3);
    Level::lemma_level_by_index(precharged.on_path(other_row, 3).unwrap().level, Level::Bank);
    lemma_delay_outlasts_run(
        spec,
        precharged,
        Command::ACT,
        other_row,
        activate,
        3,
        0,
        between_3,
        other_row,
        again,
    );
}

} // verus!
