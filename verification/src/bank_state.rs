//! What the state of a bank tells of the commands that were issued: a bank
//! has a row open exactly if the last command that concerned it has
//! activated that row.
use vstd::prelude::*;
use crate::ddr4::{Command, Level, DDR4};
use crate::dram::{DramSpec, State};
use crate::model::{addr_ok, after_all, DramModel, Issued};

verus! {

/// The coordinates of a bank: its rank, its bank group and its number in the
/// group.
pub struct BankId {
    pub rank: int,
    pub group: int,
    pub bank: int,
}

impl BankId {
    /// The tree of a channel has the bank.
    pub open spec fn within(self, channel: DramModel<DDR4>) -> bool {
        &&& 0 <= self.rank < channel.children.len()
        &&& 0 <= self.group < channel.children[self.rank].children.len()
        &&& 0 <= self.bank < channel.children[self.rank].children[self.group].children.len()
    }

    /// The state of the bank in the tree of a channel.
    pub open spec fn state(self, channel: DramModel<DDR4>) -> State {
        channel.children[self.rank].children[self.group].children[self.bank].state
    }

    /// The coordinates name the bank.
    pub open spec fn named_by(self, addr_vec: Seq<u64>) -> bool {
        &&& addr_vec[1] == self.rank
        &&& addr_vec[2] == self.group
        &&& addr_vec[3] == self.bank
    }

    /// The row that the issue opens in the bank, if it opens one: an
    /// activation at the bank opens the row of its coordinates.
    pub open spec fn opened_by(self, issue: Issued<DDR4>) -> Option<u64> {
        if issue.cmd == Command::ACT && self.named_by(issue.addr_vec) {
            Some(issue.addr_vec[4])
        } else {
            None
        }
    }

    /// Whether the issue closes the bank or finds it closed: a precharge or
    /// a read or write with precharge at the bank, and a precharge of all
    /// banks or a refresh at its rank.
    pub open spec fn closed_by(self, issue: Issued<DDR4>) -> bool {
        ||| (issue.cmd == Command::PRE || issue.cmd == Command::RDA || issue.cmd == Command::WRA)
            && self.named_by(issue.addr_vec)
        ||| (issue.cmd == Command::PREA || issue.cmd == Command::REF) && issue.addr_vec[1]
            == self.rank
    }
}

/// Every issue of the trace has coordinates that the device has, and every
/// refresh finds the banks of its rank closed, as the precursor of a refresh
/// has it.
pub open spec fn admissible(spec: DDR4, channel: DramModel<DDR4>, trace: Seq<Issued<DDR4>>) -> bool {
    forall|k: int|
        0 <= k < trace.len() ==> {
            &&& addr_ok(spec, (#[trigger] trace[k]).addr_vec)
            &&& trace[k].cmd == Command::REF ==> !DDR4::any_bank_open(
                after_all(spec, channel, trace.take(k)).children[trace[k].addr_vec[1] as int],
            )
        }
}

/// Whether issue `k` of the trace has opened the row `row` in the bank, and no
/// later issue has opened a row in the bank or closed it.
pub open spec fn opened_and_untouched(bank: BankId, trace: Seq<Issued<DDR4>>, row: u64, k: int) -> bool {
    &&& 0 <= k < trace.len()
    &&& bank.opened_by(trace[k]) == Some(row)
    &&& forall|j: int|
        k < j < trace.len() ==> bank.opened_by(#[trigger] trace[j]) is None && !bank.closed_by(
            trace[j],
        )
}

/// The last issue of the trace that opened a row in the bank or closed the
/// bank, if there was one.
pub open spec fn last_concerned(bank: BankId, trace: Seq<Issued<DDR4>>) -> Option<int>
    decreases trace.len(),
{
    if trace.len() == 0 {
        None
    } else if bank.opened_by(trace.last()) is Some || bank.closed_by(trace.last()) {
        Some(trace.len() - 1)
    } else {
        last_concerned(bank, trace.drop_last())
    }
}

/// The last issue that concerned the bank concerned it, and none after it
/// did.
pub proof fn lemma_last_concerned(bank: BankId, trace: Seq<Issued<DDR4>>)
    ensures
        match last_concerned(bank, trace) {
            Some(k) => {
                &&& 0 <= k < trace.len()
                &&& bank.opened_by(trace[k]) is Some || bank.closed_by(trace[k])
                &&& forall|j: int|
                    k < j < trace.len() ==> bank.opened_by(#[trigger] trace[j]) is None
                        && !bank.closed_by(trace[j])
            },
            None => forall|j: int|
                0 <= j < trace.len() ==> bank.opened_by(#[trigger] trace[j]) is None
                    && !bank.closed_by(trace[j]),
        },
    decreases trace.len(),
{
    if trace.len() > 0 && !(bank.opened_by(trace.last()) is Some || bank.closed_by(trace.last())) {
        lemma_last_concerned(bank, trace.drop_last());
        assert forall|j: int| 0 <= j < trace.len() - 1 implies trace[j] == trace.drop_last()[j] by {}
    }
}

/// One issue changes the state of a bank by the rules: an activation at the
/// bank opens its row; a precharge or a read or write with precharge at
/// the bank, and a precharge of all banks at its rank, close the bank; and
/// no other command changes the state.
pub proof fn lemma_issue_on_bank(spec: DDR4, channel: DramModel<DDR4>, issue: Issued<DDR4>, bank: BankId)
    requires
        spec.wf(),
        channel.shaped(spec),
        channel.level == Level::Channel,
        addr_ok(spec, issue.addr_vec),
        bank.within(channel),
    ensures
        channel.after_issue(spec, issue.cmd, issue.addr_vec, issue.clk).shaped(spec),
        channel.after_issue(spec, issue.cmd, issue.addr_vec, issue.clk).level == Level::Channel,
        bank.within(channel.after_issue(spec, issue.cmd, issue.addr_vec, issue.clk)),
        bank.state(channel.after_issue(spec, issue.cmd, issue.addr_vec, issue.clk)) == (
        if bank.opened_by(issue) is Some {
            State::Opened(issue.addr_vec[4])
        } else if bank.closed_by(issue) && issue.cmd != Command::REF {
            State::Closed
        } else {
            bank.state(channel)
        }),
{
    let cmd = issue.cmd;
    let av = issue.addr_vec;
    let mid = channel.after_state(spec, cmd, av);
    let after = mid.after_timing(spec, cmd, av, issue.clk);
    crate::model::lemma_after_state_wf(spec, channel, cmd, av);
    crate::model::lemma_after_state_frame(spec, channel, cmd, av);
    spec.lemma_tables();
    crate::model::lemma_after_timing_wf(spec, mid, cmd, av, issue.clk);
    crate::model::lemma_after_timing_states(spec, mid, cmd, av, issue.clk);
    // the states change nothing of the shape
    assert(channel.children[bank.rank].same_frame(mid.children[bank.rank]));
    assert(channel.children[bank.rank].children[bank.group].same_frame(
        mid.children[bank.rank].children[bank.group],
    ));
    // the clocks change no state
    assert(after.children.len() == mid.children.len());
    assert(mid.children[bank.rank].same_states(after.children[bank.rank]));
    assert(mid.children[bank.rank].children[bank.group].same_states(
        after.children[bank.rank].children[bank.group],
    ));
    assert(mid.children[bank.rank].children[bank.group].children[bank.bank].same_states(
        after.children[bank.rank].children[bank.group].children[bank.bank],
    ));
    assert(bank.state(after) == bank.state(mid));
    // the states change by the rules on the way down
    let rank = channel.children[av[1] as int];
    assert(rank.shaped(spec));
    assert(rank.level == Level::Rank);
    assert(mid.children == channel.children.update(av[1] as int, rank.after_state(spec, cmd, av)));
    if av[1] == bank.rank {
        let rank_after = rank.after_state(spec, cmd, av);
        let group = rank.children[av[2] as int];
        assert(group.shaped(spec));
        assert(group.level == Level::BankGroup);
        if spec.scope(cmd) == Level::Rank {
            assert(rank_after == spec.next_state(rank, cmd, av[2]));
        } else {
            assert(spec.next_state(rank, cmd, av[2]) == rank);
            let group_after = group.after_state(spec, cmd, av);
            assert(rank_after.children == rank.children.update(av[2] as int, group_after));
            if av[2] == bank.group {
                let target = group.children[av[3] as int];
                assert(target.shaped(spec));
                assert(target.level == Level::Bank);
                assert(spec.next_state(group, cmd, av[3]) == group);
                let target_after = target.after_state(spec, cmd, av);
                assert(target_after == spec.next_state(target, cmd, av[4]));
                assert(group_after.children == group.children.update(av[3] as int, target_after));
            }
        }
    }
}

/// One issue changes the states above the banks by the rules: the channel
/// and the bank groups stay as they are; a rank changes its state only by
/// the commands of power-down and self-refresh that are addressed to it:
/// entering power-down leaves it in active power-down if one of its banks
/// is open and in precharge power-down if none is, entering self-refresh
/// leaves it in self-refresh, and leaving either leaves it powered up.
pub proof fn lemma_issue_above_banks(
    spec: DDR4,
    channel: DramModel<DDR4>,
    issue: Issued<DDR4>,
    rank: int,
    group: int,
)
    requires
        spec.wf(),
        channel.shaped(spec),
        channel.level == Level::Channel,
        addr_ok(spec, issue.addr_vec),
        0 <= rank < channel.children.len(),
        0 <= group < channel.children[rank].children.len(),
    ensures
        ({
            let after = channel.after_issue(spec, issue.cmd, issue.addr_vec, issue.clk);
            let before = channel.children[rank];
            &&& after.state == channel.state
            &&& rank < after.children.len()
            &&& group < after.children[rank].children.len()
            &&& after.children[rank].children[group].state == before.children[group].state
            &&& after.children[rank].state == (if issue.addr_vec[1] != rank {
                before.state
            } else if issue.cmd == Command::PDE {
                if DDR4::any_bank_open(before) {
                    State::ActPowerDown
                } else {
                    State::PrePowerDown
                }
            } else if issue.cmd == Command::SRE {
                State::SelfRefresh
            } else if issue.cmd == Command::PDX || issue.cmd == Command::SRX {
                State::PowerUp
            } else {
                before.state
            })
        }),
{
    let cmd = issue.cmd;
    let av = issue.addr_vec;
    let mid = channel.after_state(spec, cmd, av);
    let after = mid.after_timing(spec, cmd, av, issue.clk);
    crate::model::lemma_after_state_frame(spec, channel, cmd, av);
    crate::model::lemma_after_timing_states(spec, mid, cmd, av, issue.clk);
    spec.lemma_tables();
    assert(channel.children[rank].same_frame(mid.children[rank]));
    assert(after.children.len() == mid.children.len());
    assert(mid.children[rank].same_states(after.children[rank]));
    assert(mid.children[rank].children[group].same_states(after.children[rank].children[group]));
    let addressed = channel.children[av[1] as int];
    assert(addressed.shaped(spec));
    assert(addressed.level == Level::Rank);
    assert(mid.children == channel.children.update(av[1] as int, addressed.after_state(spec, cmd, av)));
    if av[1] == rank {
        let rank_after = addressed.after_state(spec, cmd, av);
        let addressed_group = addressed.children[av[2] as int];
        assert(addressed_group.shaped(spec));
        assert(addressed_group.level == Level::BankGroup);
        if spec.scope(cmd) == Level::Rank {
            assert(rank_after == spec.next_state(addressed, cmd, av[2]));
        } else {
            assert(spec.next_state(addressed, cmd, av[2]) == addressed);
            let group_after = addressed_group.after_state(spec, cmd, av);
            assert(rank_after.children == addressed.children.update(av[2] as int, group_after));
            assert(spec.next_state(addressed_group, cmd, av[3]) == addressed_group);
            assert(group_after.state == addressed_group.state);
        }
    }
}

/// The state that the issues of the trace leave a bank in, which was in the
/// state `start` before them: that which the last issue that concerned the
/// bank has left it in, or `start` if none concerned it.
pub open spec fn left_in(bank: BankId, trace: Seq<Issued<DDR4>>, start: State) -> State {
    match last_concerned(bank, trace) {
        Some(k) => match bank.opened_by(trace[k]) {
            Some(row) => State::Opened(row),
            None => State::Closed,
        },
        None => start,
    }
}

/// The state of a bank follows the last issue that concerned it: after a
/// run of issues the bank has open the row that the last of them that
/// concerned it has opened, is closed if that issue has closed it, and is in
/// the state in which it was if no issue concerned it.
pub proof fn lemma_bank_state_follows_last(
    spec: DDR4,
    channel: DramModel<DDR4>,
    trace: Seq<Issued<DDR4>>,
    bank: BankId,
)
    requires
        spec.wf(),
        channel.shaped(spec),
        channel.level == Level::Channel,
        bank.within(channel),
        admissible(spec, channel, trace),
    ensures
        after_all(spec, channel, trace).shaped(spec),
        after_all(spec, channel, trace).level == Level::Channel,
        bank.within(after_all(spec, channel, trace)),
        bank.state(after_all(spec, channel, trace)) == left_in(bank, trace, bank.state(channel)),
    decreases trace.len(),
{
    if trace.len() > 0 {
        let before = trace.drop_last();
        let last = trace.last();
        assert forall|k: int| 0 <= k < before.len() implies {
            &&& addr_ok(spec, (#[trigger] before[k]).addr_vec)
            &&& before[k].cmd == Command::REF ==> !DDR4::any_bank_open(
                after_all(spec, channel, before.take(k)).children[before[k].addr_vec[1] as int],
            )
        } by {
            assert(before[k] == trace[k]);
            assert(before.take(k) =~= trace.take(k));
        }
        lemma_bank_state_follows_last(spec, channel, before, bank);
        let tree = after_all(spec, channel, before);
        lemma_issue_on_bank(spec, tree, last, bank);
        lemma_last_concerned(bank, before);
        if bank.opened_by(last) is Some {
        } else if bank.closed_by(last) {
            if last.cmd == Command::REF {
                assert(trace.take(trace.len() - 1) =~= before);
                assert(trace[trace.len() - 1] == last);
                // the refresh found the bank closed
                let rank = tree.children[bank.rank];
                assert(!DDR4::any_bank_open(rank));
                assert(rank.children[bank.group].children[bank.bank].state == State::Closed);
            }
        } else {
            assert(last_concerned(bank, trace) == last_concerned(bank, before));
            match last_concerned(bank, before) {
                Some(k) => {
                    assert(before[k] == trace[k]);
                },
                None => {},
            }
        }
    }
}

/// The law of the bank state in the words of the commands: after a run of
/// issues that starts with the bank closed, the bank has the row `row` open
/// if and only if an activation of that row at the bank was issued and no
/// issue after it has activated a row of the bank, precharged the bank, read
/// or written it with precharge, or precharged all banks of its rank or
/// refreshed the rank.
pub proof fn lemma_bank_open_iff_activated_and_untouched(
    spec: DDR4,
    channel: DramModel<DDR4>,
    trace: Seq<Issued<DDR4>>,
    bank: BankId,
    row: u64,
)
    requires
        spec.wf(),
        channel.shaped(spec),
        channel.level == Level::Channel,
        bank.within(channel),
        bank.state(channel) == State::Closed,
        admissible(spec, channel, trace),
    ensures
        bank.state(after_all(spec, channel, trace)) == State::Opened(row) <==> exists|k: int| #[trigger]
            opened_and_untouched(bank, trace, row, k),
{
    lemma_bank_state_follows_last(spec, channel, trace, bank);
    lemma_last_concerned(bank, trace);
    if exists|k: int| #[trigger] opened_and_untouched(bank, trace, row, k) {
        let k = choose|k: int| #[trigger] opened_and_untouched(bank, trace, row, k);
        match last_concerned(bank, trace) {
            Some(last) => {
                if last < k {
                    assert(bank.opened_by(trace[k]) is None);
                } else if last > k {
                    assert(bank.opened_by(trace[last]) is None && !bank.closed_by(trace[last]));
                }
            },
            None => {
                assert(bank.opened_by(trace[k]) is None);
            },
        }
    }
    if last_concerned(bank, trace) matches Some(k) && bank.opened_by(trace[k]) == Some(row) {
        let k = last_concerned(bank, trace).unwrap();
        assert(opened_and_untouched(bank, trace, row, k));
    }
}

} // verus!
