//! What holds of the clocks and of the histories of a device tree: no issue
//! sets a clock back, an issue that is ready finds no node on its way that
//! makes it wait, an issue holds back what its timing entries name, and the
//! histories stay in the order of time.
use vstd::prelude::*;
use crate::dram::{CommandTrait, DramSpec, DramTypes, LevelTrait, TimeEntry};
use crate::model::{
    after_all, lemma_after_state_frame, lemma_after_state_wf, lemma_after_timing_wf,
    lemma_max_dist, lemma_own_clocks, lemma_sibling_clocks, own_clocks, recorded, sibling_clocks,
    DramModel, Issued,
};

verus! {

impl<T: DramTypes> DramModel<T> {
    /// The two trees have the same shape, and no clock of `later` is before
    /// the clock of the same node and command in this tree.
    pub open spec fn no_clock_after(self, later: Self) -> bool
        decreases self,
    {
        &&& self.level == later.level
        &&& self.id == later.id
        &&& self.next_clk.len() == later.next_clk.len()
        &&& forall|c: int| 0 <= c < self.next_clk.len() ==> self.next_clk[c] <= later.next_clk[c]
        &&& self.children.len() == later.children.len()
        &&& forall|i: int|
            0 <= i < self.children.len() ==> (#[trigger] self.children[i]).no_clock_after(
                later.children[i],
            )
    }

    /// The history of every command at every node holds the cycles of its
    /// issues from the latest to the earliest, and behind them the marks of
    /// no issue.
    pub open spec fn history_ordered(self) -> bool
        decreases self,
    {
        &&& forall|c: int, k: int, j: int|
            0 <= c < self.prev.len() && 0 <= k < j < self.prev[c].len() ==> {
                ||| (#[trigger] self.prev[c][j]) == u64::MAX
                ||| (#[trigger] self.prev[c][k]) != u64::MAX && self.prev[c][k] >= self.prev[c][j]
            }
        &&& forall|i: int|
            0 <= i < self.children.len() ==> (#[trigger] self.children[i]).history_ordered()
    }

    /// No issue is on record at any node for a cycle after `clk`.
    pub open spec fn no_record_after(self, clk: u64) -> bool
        decreases self,
    {
        &&& forall|c: int, k: int|
            0 <= c < self.prev.len() && 0 <= k < self.prev[c].len() ==> {
                ||| (#[trigger] self.prev[c][k]) == u64::MAX
                ||| self.prev[c][k] <= clk
            }
        &&& forall|i: int|
            0 <= i < self.children.len() ==> (#[trigger] self.children[i]).no_record_after(clk)
    }

    /// The histories are in the order of time and hold no cycle after `clk`.
    pub open spec fn history_until(self, clk: u64) -> bool {
        self.history_ordered() && self.no_record_after(clk)
    }

    /// The node that the coordinates name `depth` levels below this one, if
    /// the tree reaches that far.
    pub open spec fn on_path(self, addr_vec: Seq<u64>, depth: nat) -> Option<Self>
        decreases depth,
    {
        if depth == 0 {
            Some(self)
        } else {
            let child_index = addr_vec[self.level.index() as int + 1];
            if child_index < self.children.len() {
                self.children[child_index as int].on_path(addr_vec, (depth - 1) as nat)
            } else {
                None
            }
        }
    }
}

/// No clock of a tree is after itself.
pub proof fn lemma_no_clock_after_refl<T: DramTypes>(a: DramModel<T>)
    ensures
        a.no_clock_after(a),
    decreases a,
{
    assert forall|i: int| 0 <= i < a.children.len() implies (#[trigger] a.children[i]).no_clock_after(
        a.children[i],
    ) by {
        lemma_no_clock_after_refl(a.children[i]);
    }
}

/// The order of trees by their clocks is transitive.
pub proof fn lemma_no_clock_after_trans<T: DramTypes>(
    a: DramModel<T>,
    b: DramModel<T>,
    c: DramModel<T>,
)
    requires
        a.no_clock_after(b),
        b.no_clock_after(c),
    ensures
        a.no_clock_after(c),
    decreases a,
{
    assert forall|i: int| 0 <= i < a.children.len() implies (#[trigger] a.children[i]).no_clock_after(
        c.children[i],
    ) by {
        assert(a.children[i].no_clock_after(b.children[i]));
        assert(b.children[i].no_clock_after(c.children[i]));
        lemma_no_clock_after_trans(a.children[i], b.children[i], c.children[i]);
    }
}

/// Where two trees differ in states only, no clock of the one is after that
/// of the other.
pub proof fn lemma_same_frame_clocks<T: DramTypes>(a: DramModel<T>, b: DramModel<T>)
    requires
        a.same_frame(b),
    ensures
        a.no_clock_after(b),
    decreases a,
{
    assert forall|i: int| 0 <= i < a.children.len() implies (#[trigger] a.children[i]).no_clock_after(
        b.children[i],
    ) by {
        assert(a.children[i].same_frame(b.children[i]));
        lemma_same_frame_clocks(a.children[i], b.children[i]);
    }
}

/// Entering an issue into the clocks lowers no clock.
pub proof fn lemma_after_timing_clocks<T: DramSpec>(
    spec: T,
    m: DramModel<T>,
    cmd: T::Command,
    addr_vec: Seq<u64>,
    clk: u64,
)
    ensures
        m.no_clock_after(m.after_timing(spec, cmd, addr_vec, clk)),
    decreases m,
{
    let entries = spec.timing(m.level, cmd);
    let after = m.after_timing(spec, cmd, addr_vec, clk);
    if addr_vec[m.level.index() as int] != m.id {
        lemma_sibling_clocks(m.next_clk, entries, clk);
        assert forall|i: int| 0 <= i < m.children.len() implies (#[trigger] m.children[i]).no_clock_after(
            after.children[i],
        ) by {
            lemma_no_clock_after_refl(m.children[i]);
        }
    } else {
        let history = recorded(m.prev[cmd.index() as int], clk);
        lemma_own_clocks(m.next_clk, entries, history);
        assert forall|i: int| 0 <= i < m.children.len() implies (#[trigger] m.children[i]).no_clock_after(
            after.children[i],
        ) by {
            lemma_after_timing_clocks(spec, m.children[i], cmd, addr_vec, clk);
        }
    }
}

/// Timing is monotonic: the issue of a command lowers no clock of any node
/// for any command.
pub proof fn lemma_issue_lowers_no_clock<T: DramSpec>(
    spec: T,
    m: DramModel<T>,
    cmd: T::Command,
    addr_vec: Seq<u64>,
    clk: u64,
)
    ensures
        m.no_clock_after(m.after_issue(spec, cmd, addr_vec, clk)),
{
    let mid = m.after_state(spec, cmd, addr_vec);
    lemma_after_state_frame(spec, m, cmd, addr_vec);
    lemma_same_frame_clocks(m, mid);
    lemma_after_timing_clocks(spec, mid, cmd, addr_vec, clk);
    lemma_no_clock_after_trans(m, mid, mid.after_timing(spec, cmd, addr_vec, clk));
}

/// Each entry for the node itself whose issue is on record delays its
/// command by its value at least.
pub proof fn lemma_own_clocks_delay<C: CommandTrait>(
    clocks: Seq<u64>,
    entries: Seq<TimeEntry<C>>,
    history: Seq<u64>,
    j: int,
)
    requires
        0 <= j < entries.len(),
        !entries[j].sibling,
        1 <= entries[j].dist <= history.len(),
        history[entries[j].dist - 1] != u64::MAX,
        history[entries[j].dist - 1] + entries[j].val <= u64::MAX,
        entries[j].cmd.index() < clocks.len(),
    ensures
        own_clocks(clocks, entries, history)[entries[j].cmd.index() as int] >= history[entries[j].dist
            - 1] + entries[j].val,
    decreases entries.len(),
{
    lemma_own_clocks(clocks, entries.drop_last(), history);
    if j < entries.len() - 1 {
        lemma_own_clocks_delay(clocks, entries.drop_last(), history, j);
    }
}

/// Trees that differ in states only reach equally far along the
/// coordinates, through nodes of the same levels.
pub proof fn lemma_same_frame_on_path<T: DramTypes>(
    a: DramModel<T>,
    b: DramModel<T>,
    addr_vec: Seq<u64>,
    depth: nat,
)
    requires
        a.same_frame(b),
    ensures
        a.on_path(addr_vec, depth) is Some <==> b.on_path(addr_vec, depth) is Some,
        a.on_path(addr_vec, depth) is Some ==> a.on_path(addr_vec, depth).unwrap().same_frame(
            b.on_path(addr_vec, depth).unwrap(),
        ),
    decreases depth,
{
    if depth > 0 {
        let child_index = addr_vec[a.level.index() as int + 1];
        if child_index < a.children.len() {
            assert(a.children[child_index as int].same_frame(b.children[child_index as int]));
            lemma_same_frame_on_path(
                a.children[child_index as int],
                b.children[child_index as int],
                addr_vec,
                (depth - 1) as nat,
            );
        }
    }
}

/// Entering an issue into the clocks delays, at every node that the
/// coordinates name, the command of each entry that looks back one issue by
/// the value of the entry.
pub proof fn lemma_timing_delays_on_path<T: DramSpec>(
    spec: T,
    m: DramModel<T>,
    cmd: T::Command,
    addr_vec: Seq<u64>,
    clk: u64,
    depth: nat,
    j: int,
)
    requires
        m.shaped(spec),
        addr_vec[m.level.index() as int] == m.id,
        m.on_path(addr_vec, depth) is Some,
        0 <= j < spec.timing(m.on_path(addr_vec, depth).unwrap().level, cmd).len(),
        !spec.timing(m.on_path(addr_vec, depth).unwrap().level, cmd)[j].sibling,
        spec.timing(m.on_path(addr_vec, depth).unwrap().level, cmd)[j].dist == 1,
        spec.timing(m.on_path(addr_vec, depth).unwrap().level, cmd)[j].val > 0,
        clk + spec.timing(m.on_path(addr_vec, depth).unwrap().level, cmd)[j].val <= u64::MAX,
    ensures
        m.after_timing(spec, cmd, addr_vec, clk).on_path(addr_vec, depth) is Some,
        ({
            let entry = spec.timing(m.on_path(addr_vec, depth).unwrap().level, cmd)[j];
            let after = m.after_timing(spec, cmd, addr_vec, clk).on_path(addr_vec, depth).unwrap();
            after.next_clk[entry.cmd.index() as int] >= clk + entry.val
        }),
    decreases depth,
{
    cmd.lemma_command();
    if depth == 0 {
        let entries = spec.timing(m.level, cmd);
        let history = recorded(m.prev[cmd.index() as int], clk);
        entries[j].cmd.lemma_command();
        lemma_max_dist(entries, j);
        assert(history[0] == clk);
        lemma_own_clocks_delay(m.next_clk, entries, history, j);
    } else {
        m.level.lemma_level();
        let child_index = addr_vec[m.level.index() as int + 1];
        let child = m.children[child_index as int];
        lemma_timing_delays_on_path(spec, child, cmd, addr_vec, clk, (depth - 1) as nat, j);
    }
}

/// Readiness gates the issue: where a command is ready at the coordinates,
/// no node that the coordinates name, from this node down to the scope of
/// the command, makes it wait beyond `clk`.
pub proof fn lemma_ready_on_path<T: DramSpec>(
    spec: T,
    m: DramModel<T>,
    cmd: T::Command,
    addr_vec: Seq<u64>,
    clk: u64,
    depth: nat,
)
    requires
        m.shaped(spec),
        m.ready(spec, cmd, addr_vec, clk),
        m.on_path(addr_vec, depth) is Some,
        m.level.index() + depth <= spec.scope(cmd).index(),
    ensures
        clk >= m.on_path(addr_vec, depth).unwrap().next_clk[cmd.index() as int],
    decreases depth,
{
    if depth > 0 {
        m.level.lemma_level();
        let child_index = addr_vec[m.level.index() as int + 1];
        lemma_ready_on_path(
            spec,
            m.children[child_index as int],
            cmd,
            addr_vec,
            clk,
            (depth - 1) as nat,
        );
    }
}

/// After the issue of a command at `clk`, every node that the coordinates
/// name holds back the command of each of its timing entries that looks
/// back one issue and has a delay: until after `clk`, by the delay of the
/// entry at least.
pub proof fn lemma_issue_delays_on_path<T: DramSpec>(
    spec: T,
    m: DramModel<T>,
    cmd: T::Command,
    addr_vec: Seq<u64>,
    clk: u64,
    depth: nat,
    j: int,
)
    requires
        m.shaped(spec),
        addr_vec[m.level.index() as int] == m.id,
        m.on_path(addr_vec, depth) is Some,
        0 <= j < spec.timing(m.on_path(addr_vec, depth).unwrap().level, cmd).len(),
        !spec.timing(m.on_path(addr_vec, depth).unwrap().level, cmd)[j].sibling,
        spec.timing(m.on_path(addr_vec, depth).unwrap().level, cmd)[j].dist == 1,
        spec.timing(m.on_path(addr_vec, depth).unwrap().level, cmd)[j].val > 0,
        clk + spec.timing(m.on_path(addr_vec, depth).unwrap().level, cmd)[j].val <= u64::MAX,
    ensures
        m.after_issue(spec, cmd, addr_vec, clk).on_path(addr_vec, depth) is Some,
        ({
            let entry = spec.timing(m.on_path(addr_vec, depth).unwrap().level, cmd)[j];
            let after = m.after_issue(spec, cmd, addr_vec, clk).on_path(addr_vec, depth).unwrap();
            &&& after.next_clk[entry.cmd.index() as int] >= clk + entry.val
            &&& after.next_clk[entry.cmd.index() as int] > clk
        }),
{
    let mid = m.after_state(spec, cmd, addr_vec);
    lemma_after_state_wf(spec, m, cmd, addr_vec);
    lemma_after_state_frame(spec, m, cmd, addr_vec);
    lemma_same_frame_on_path(m, mid, addr_vec, depth);
    lemma_timing_delays_on_path(spec, mid, cmd, addr_vec, clk, depth, j);
}

/// A run of issues leads from a tree in the shape of the device to a tree
/// in the shape of the device, and lowers no clock.
pub proof fn lemma_run_lowers_no_clock<T: DramSpec>(
    spec: T,
    m: DramModel<T>,
    trace: Seq<Issued<T>>,
)
    requires
        m.shaped(spec),
    ensures
        after_all(spec, m, trace).shaped(spec),
        m.no_clock_after(after_all(spec, m, trace)),
    decreases trace.len(),
{
    if trace.len() == 0 {
        lemma_no_clock_after_refl(m);
    } else {
        let last = trace.last();
        let before = after_all(spec, m, trace.drop_last());
        lemma_run_lowers_no_clock(spec, m, trace.drop_last());
        lemma_after_state_wf(spec, before, last.cmd, last.addr_vec);
        lemma_after_timing_wf(
            spec,
            before.after_state(spec, last.cmd, last.addr_vec),
            last.cmd,
            last.addr_vec,
            last.clk,
        );
        lemma_issue_lowers_no_clock(spec, before, last.cmd, last.addr_vec, last.clk);
        lemma_no_clock_after_trans(m, before, after_all(spec, m, trace));
    }
}

/// Where no clock has gone back, the node that coordinates name has not
/// gone away, and none of its clocks has gone back.
pub proof fn lemma_no_clock_after_on_path<T: DramTypes>(
    a: DramModel<T>,
    b: DramModel<T>,
    addr_vec: Seq<u64>,
    depth: nat,
)
    requires
        a.no_clock_after(b),
        a.on_path(addr_vec, depth) is Some,
    ensures
        b.on_path(addr_vec, depth) is Some,
        a.on_path(addr_vec, depth).unwrap().no_clock_after(b.on_path(addr_vec, depth).unwrap()),
    decreases depth,
{
    if depth > 0 {
        let child_index = addr_vec[a.level.index() as int + 1];
        assert(a.children[child_index as int].no_clock_after(b.children[child_index as int]));
        lemma_no_clock_after_on_path(
            a.children[child_index as int],
            b.children[child_index as int],
            addr_vec,
            (depth - 1) as nat,
        );
    }
}

/// Coordinates that the device has name a node at every level that has
/// nodes.
pub proof fn lemma_on_path_exists<T: DramSpec>(
    spec: T,
    m: DramModel<T>,
    addr_vec: Seq<u64>,
    depth: nat,
)
    requires
        m.shaped(spec),
        crate::model::addr_ok(spec, addr_vec),
        m.level.index() + depth < T::Level::row_index(),
    ensures
        m.on_path(addr_vec, depth) is Some,
        m.on_path(addr_vec, depth).unwrap().level.index() == m.level.index() + depth,
    decreases depth,
{
    if depth > 0 {
        m.level.lemma_level();
        let child_index = addr_vec[m.level.index() as int + 1];
        lemma_on_path_exists(spec, m.children[child_index as int], addr_vec, (depth - 1) as nat);
    }
}

/// A node of a tree in the shape of the device is the root of such a tree.
pub proof fn lemma_on_path_shaped<T: DramSpec>(
    spec: T,
    m: DramModel<T>,
    addr_vec: Seq<u64>,
    depth: nat,
)
    requires
        m.shaped(spec),
        m.on_path(addr_vec, depth) is Some,
    ensures
        m.on_path(addr_vec, depth).unwrap().shaped(spec),
    decreases depth,
{
    if depth > 0 {
        let child_index = addr_vec[m.level.index() as int + 1];
        lemma_on_path_shaped(spec, m.children[child_index as int], addr_vec, (depth - 1) as nat);
    }
}

/// Coordinates that agree down to a level name the same nodes down to
/// that level.
pub proof fn lemma_on_path_agrees<T: DramSpec>(
    spec: T,
    m: DramModel<T>,
    addr_vec: Seq<u64>,
    other: Seq<u64>,
    depth: nat,
)
    requires
        m.shaped(spec),
        forall|l: int| m.level.index() < l <= m.level.index() + depth ==> addr_vec[l] == other[l],
    ensures
        m.on_path(addr_vec, depth) == m.on_path(other, depth),
    decreases depth,
{
    if depth > 0 {
        m.level.lemma_level();
        let child_index = addr_vec[m.level.index() as int + 1];
        if child_index < m.children.len() {
            lemma_on_path_agrees(
                spec,
                m.children[child_index as int],
                addr_vec,
                other,
                (depth - 1) as nat,
            );
        }
    }
}

/// A delay outlasts whatever is issued in between. Where a command was
/// issued at `clk` and a node that its coordinates name has a timing entry
/// for it that looks back one issue, the command of that entry is ready at
/// that node only `val` cycles after `clk` or later, whatever else has been
/// issued since: no later cycle `later`, at which it is ready at
/// coordinates that name the node, is before `clk + val`.
pub proof fn lemma_delay_outlasts_run<T: DramSpec>(
    spec: T,
    m: DramModel<T>,
    cmd: T::Command,
    addr_vec: Seq<u64>,
    clk: u64,
    depth: nat,
    j: int,
    trace: Seq<Issued<T>>,
    next_addr_vec: Seq<u64>,
    later: u64,
)
    requires
        m.shaped(spec),
        addr_vec[m.level.index() as int] == m.id,
        m.on_path(addr_vec, depth) is Some,
        0 <= j < spec.timing(m.on_path(addr_vec, depth).unwrap().level, cmd).len(),
        !spec.timing(m.on_path(addr_vec, depth).unwrap().level, cmd)[j].sibling,
        spec.timing(m.on_path(addr_vec, depth).unwrap().level, cmd)[j].dist == 1,
        spec.timing(m.on_path(addr_vec, depth).unwrap().level, cmd)[j].val > 0,
        clk + spec.timing(m.on_path(addr_vec, depth).unwrap().level, cmd)[j].val <= u64::MAX,
        forall|l: int|
            m.level.index() < l <= m.level.index() + depth ==> addr_vec[l] == next_addr_vec[l],
        m.level.index() + depth <= spec.scope(
            spec.timing(m.on_path(addr_vec, depth).unwrap().level, cmd)[j].cmd,
        ).index(),
        after_all(spec, m.after_issue(spec, cmd, addr_vec, clk), trace).ready(
            spec,
            spec.timing(m.on_path(addr_vec, depth).unwrap().level, cmd)[j].cmd,
            next_addr_vec,
            later,
        ),
    ensures
        later >= clk + spec.timing(m.on_path(addr_vec, depth).unwrap().level, cmd)[j].val,
{
    let entry = spec.timing(m.on_path(addr_vec, depth).unwrap().level, cmd)[j];
    let issued = m.after_issue(spec, cmd, addr_vec, clk);
    let end = after_all(spec, issued, trace);
    lemma_issue_delays_on_path(spec, m, cmd, addr_vec, clk, depth, j);
    lemma_after_state_wf(spec, m, cmd, addr_vec);
    lemma_after_timing_wf(spec, m.after_state(spec, cmd, addr_vec), cmd, addr_vec, clk);
    lemma_issue_lowers_no_clock(spec, m, cmd, addr_vec, clk);
    lemma_run_lowers_no_clock(spec, issued, trace);
    lemma_no_clock_after_on_path(issued, end, addr_vec, depth);
    lemma_on_path_agrees(spec, end, addr_vec, next_addr_vec, depth);
    lemma_ready_on_path(spec, end, entry.cmd, next_addr_vec, later, depth);
    entry.cmd.lemma_command();
    let node = issued.on_path(addr_vec, depth).unwrap();
    let last = end.on_path(addr_vec, depth).unwrap();
    lemma_on_path_shaped(spec, issued, addr_vec, depth);
    assert(node.next_clk[entry.cmd.index() as int] <= last.next_clk[entry.cmd.index() as int]);
}

/// What is on record before a cycle is on record before every later cycle.
pub proof fn lemma_no_record_after_later<T: DramTypes>(m: DramModel<T>, clk: u64, later: u64)
    requires
        m.no_record_after(clk),
        clk <= later,
    ensures
        m.no_record_after(later),
    decreases m,
{
    assert forall|i: int| 0 <= i < m.children.len() implies (#[trigger] m.children[i]).no_record_after(
        later,
    ) by {
        lemma_no_record_after_later(m.children[i], clk, later);
    }
}

/// Trees that differ in states only have the same histories.
pub proof fn lemma_same_frame_history<T: DramTypes>(a: DramModel<T>, b: DramModel<T>, clk: u64)
    requires
        a.same_frame(b),
    ensures
        a.history_ordered() ==> b.history_ordered(),
        a.no_record_after(clk) ==> b.no_record_after(clk),
    decreases a,
{
    assert forall|i: int| 0 <= i < a.children.len() implies (a.history_ordered() ==> (
    #[trigger] b.children[i]).history_ordered()) && (a.no_record_after(clk)
        ==> b.children[i].no_record_after(clk)) by {
        assert(a.children[i].same_frame(b.children[i]));
        lemma_same_frame_history(a.children[i], b.children[i], clk);
        if a.history_ordered() {
            assert(a.children[i].history_ordered());
        }
        if a.no_record_after(clk) {
            assert(a.children[i].no_record_after(clk));
        }
    }
}

/// Entering an issue at `clk` into the histories keeps them ordered.
pub proof fn lemma_after_timing_history<T: DramSpec>(
    spec: T,
    m: DramModel<T>,
    cmd: T::Command,
    addr_vec: Seq<u64>,
    clk: u64,
)
    requires
        m.shaped(spec),
        m.history_ordered(),
        m.no_record_after(clk),
        clk != u64::MAX,
    ensures
        m.after_timing(spec, cmd, addr_vec, clk).history_ordered(),
        m.after_timing(spec, cmd, addr_vec, clk).no_record_after(clk),
    decreases m,
{
    let after = m.after_timing(spec, cmd, addr_vec, clk);
    cmd.lemma_command();
    if addr_vec[m.level.index() as int] == m.id {
        let c0 = cmd.index() as int;
        assert forall|i: int| 0 <= i < after.children.len() implies (#[trigger] after.children[i]).history_ordered()
            && after.children[i].no_record_after(clk) by {
            assert(m.children[i].history_ordered());
            assert(m.children[i].no_record_after(clk));
            lemma_after_timing_history(spec, m.children[i], cmd, addr_vec, clk);
        }
        assert forall|c: int, k: int|
            0 <= c < after.prev.len() && 0 <= k < after.prev[c].len() implies {
            ||| (#[trigger] after.prev[c][k]) == u64::MAX
            ||| after.prev[c][k] <= clk
        } by {
            if c == c0 && 0 <= c0 < m.prev.len() {
                if k > 0 {
                    assert(after.prev[c][k] == m.prev[c][k - 1]);
                }
            } else {
                assert(after.prev[c][k] == m.prev[c][k]);
            }
        }
        assert forall|c: int, k: int, j: int|
            0 <= c < after.prev.len() && 0 <= k < j < after.prev[c].len() implies {
            ||| (#[trigger] after.prev[c][j]) == u64::MAX
            ||| (#[trigger] after.prev[c][k]) != u64::MAX && after.prev[c][k] >= after.prev[c][j]
        } by {
            if c == c0 && 0 <= c0 < m.prev.len() {
                assert(after.prev[c][j] == m.prev[c][j - 1]);
                if k > 0 {
                    assert(after.prev[c][k] == m.prev[c][k - 1]);
                }
            } else {
                assert(after.prev[c][k] == m.prev[c][k]);
                assert(after.prev[c][j] == m.prev[c][j]);
            }
        }
    }
}

/// The histories stay ordered: where the cycles on record are ordered and
/// none of them is after `clk`, the same holds after an issue at `clk`.
pub proof fn lemma_issue_keeps_history_ordered<T: DramSpec>(
    spec: T,
    m: DramModel<T>,
    cmd: T::Command,
    addr_vec: Seq<u64>,
    clk: u64,
)
    requires
        m.shaped(spec),
        m.history_ordered(),
        m.no_record_after(clk),
        clk != u64::MAX,
    ensures
        m.after_issue(spec, cmd, addr_vec, clk).history_ordered(),
        m.after_issue(spec, cmd, addr_vec, clk).no_record_after(clk),
        m.after_issue(spec, cmd, addr_vec, clk).history_until(clk),
{
    let mid = m.after_state(spec, cmd, addr_vec);
    lemma_after_state_wf(spec, m, cmd, addr_vec);
    lemma_after_state_frame(spec, m, cmd, addr_vec);
    lemma_same_frame_history(m, mid, clk);
    lemma_after_timing_history(spec, mid, cmd, addr_vec, clk);
}

/// A fresh tree has nothing on record.
pub proof fn lemma_fresh_history<T: DramSpec>(spec: T, level: T::Level, id: nat, clk: u64)
    ensures
        DramModel::<T>::fresh(spec, level, id).history_ordered(),
        DramModel::<T>::fresh(spec, level, id).no_record_after(clk),
    decreases T::Level::MAX_LEVEL - level.index(),
{
    let m = DramModel::<T>::fresh(spec, level, id);
    level.lemma_level();
    assert forall|i: int| 0 <= i < m.children.len() implies (#[trigger] m.children[i]).history_ordered()
        && m.children[i].no_record_after(clk) by {
        let below = level.next()->Some_0;
        lemma_fresh_history(spec, below, i as nat, clk);
    }
}

/// The entries for the node itself raise the clock of a command no higher
/// than the latest cycle that any entry for it asks for.
pub proof fn lemma_own_clocks_bound<C: CommandTrait>(
    clocks: Seq<u64>,
    entries: Seq<TimeEntry<C>>,
    history: Seq<u64>,
    target: int,
    bound: int,
)
    requires
        0 <= target < clocks.len(),
        clocks[target] <= bound,
        forall|j: int|
            0 <= j < entries.len() && (#[trigger] entries[j]).cmd.index() == target
                && !entries[j].sibling && history[entries[j].dist - 1] != u64::MAX
                ==> history[entries[j].dist - 1] + entries[j].val <= bound,
        forall|j: int|
            0 <= j < entries.len() && !(#[trigger] entries[j]).sibling && history[entries[j].dist
                - 1] != u64::MAX ==> history[entries[j].dist - 1] + entries[j].val <= u64::MAX,
    ensures
        own_clocks(clocks, entries, history)[target] <= bound,
    decreases entries.len(),
{
    if entries.len() > 0 {
        let before = entries.drop_last();
        assert forall|j: int| 0 <= j < before.len() implies before[j] == entries[j] by {}
        lemma_own_clocks(clocks, before, history);
        lemma_own_clocks_bound(clocks, before, history, target, bound);
        assert(entries.last() == entries[entries.len() - 1]);
    }
}

/// The entries for siblings raise the clock of a command no higher than the
/// latest cycle that any entry for it asks for.
pub proof fn lemma_sibling_clocks_bound<C: CommandTrait>(
    clocks: Seq<u64>,
    entries: Seq<TimeEntry<C>>,
    clk: u64,
    target: int,
    bound: int,
)
    requires
        0 <= target < clocks.len(),
        clocks[target] <= bound,
        forall|j: int|
            0 <= j < entries.len() && (#[trigger] entries[j]).cmd.index() == target
                && entries[j].sibling ==> clk + entries[j].val <= bound,
        forall|j: int|
            0 <= j < entries.len() && (#[trigger] entries[j]).sibling ==> clk + entries[j].val
                <= u64::MAX,
    ensures
        sibling_clocks(clocks, entries, clk)[target] <= bound,
    decreases entries.len(),
{
    if entries.len() > 0 {
        let before = entries.drop_last();
        assert forall|j: int| 0 <= j < before.len() implies before[j] == entries[j] by {}
        lemma_sibling_clocks(clocks, before, clk);
        lemma_sibling_clocks_bound(clocks, before, clk, target, bound);
        assert(entries.last() == entries[entries.len() - 1]);
    }
}

/// An entry without a delay constrains nothing: where every entry by which
/// `cmd` delays the command `target` at the level of a node has the value
/// zero, the issue of `cmd` at `clk` makes `target` wait at that node for no
/// cycle after `clk`. Its clock stays where it was, or goes to `clk` or to
/// a cycle before.
pub proof fn lemma_no_delay_no_wait<T: DramSpec>(
    spec: T,
    m: DramModel<T>,
    cmd: T::Command,
    addr_vec: Seq<u64>,
    clk: u64,
    target: T::Command,
)
    requires
        spec.wf(),
        m.wf(spec),
        m.no_record_after(clk),
        clk + spec.horizon() <= u64::MAX,
        forall|j: int|
            0 <= j < spec.timing(m.level, cmd).len() && (#[trigger] spec.timing(
                m.level,
                cmd,
            )[j]).cmd == target ==> spec.timing(m.level, cmd)[j].val == 0,
    ensures
        ({
            let before = m.next_clk[target.index() as int];
            let after = m.after_timing(spec, cmd, addr_vec, clk).next_clk[target.index() as int];
            after == before || after <= clk
        }),
{
    let entries = spec.timing(m.level, cmd);
    let t = target.index() as int;
    let bound = if m.next_clk[t] >= clk {
        m.next_clk[t] as int
    } else {
        clk as int
    };
    target.lemma_command();
    cmd.lemma_command();
    spec.lemma_tables();
    assert forall|j: int| 0 <= j < entries.len() && (#[trigger] entries[j]).cmd.index() == t implies entries[j].cmd
        == target by {
        entries[j].cmd.lemma_command();
    }
    if addr_vec[m.level.index() as int] != m.id {
        lemma_sibling_clocks(m.next_clk, entries, clk);
        lemma_sibling_clocks_bound(m.next_clk, entries, clk, t, bound);
    } else {
        let history = recorded(m.prev[cmd.index() as int], clk);
        assert forall|j: int|
            0 <= j < entries.len() && !(#[trigger] entries[j]).sibling && history[entries[j].dist
                - 1] != u64::MAX implies history[entries[j].dist - 1] <= clk by {
            lemma_max_dist(entries, j);
            if entries[j].dist - 1 > 0 {
                assert(history[entries[j].dist - 1] == m.prev[cmd.index() as int][entries[j].dist
                    - 2]);
            }
        }
        lemma_own_clocks(m.next_clk, entries, history);
        lemma_own_clocks_bound(m.next_clk, entries, history, t, bound);
    }
}

} // verus!
