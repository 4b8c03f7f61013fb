//! The mathematical model of the device tree of a channel: what a tree of a
//! device is, what the issue of a command makes of it, and that the issue
//! leads from a tree of the device to a tree of the device.
use vstd::prelude::*;
use crate::dram::{CommandTrait, DramSpec, DramTypes, LevelTrait, State, TimeEntry};

verus! {

/// The mathematical model of a node of the device tree, with the subtree
/// below it.
pub struct DramModel<T: DramTypes> {
    pub level: T::Level,
    pub id: nat,
    pub state: State,
    /// For each command, the first cycle at which it may issue at the node.
    pub next_clk: Seq<u64>,
    /// For each command, the cycles of its most recent issues at the node,
    /// the latest first; `u64::MAX` where there was none yet.
    pub prev: Seq<Seq<u64>>,
    pub children: Seq<DramModel<T>>,
}

/// A command issued at the coordinates `addr_vec` at cycle `clk`.
pub struct Issued<T: DramTypes> {
    pub cmd: T::Command,
    pub addr_vec: Seq<u64>,
    pub clk: u64,
}

/// The tree after the issues of `trace`, in their order.
pub open spec fn after_all<T: DramSpec>(spec: T, tree: DramModel<T>, trace: Seq<Issued<T>>) -> DramModel<
    T,
>
    decreases trace.len(),
{
    if trace.len() == 0 {
        tree
    } else {
        let last = trace.last();
        after_all(spec, tree, trace.drop_last()).after_issue(
            spec,
            last.cmd,
            last.addr_vec,
            last.clk,
        )
    }
}

/// A timing entry looks back at least one issue, and exactly one where it
/// concerns the siblings.
pub open spec fn entry_ok<C: CommandTrait>(entry: TimeEntry<C>) -> bool {
    &&& entry.dist >= 1
    &&& entry.sibling ==> entry.dist == 1
}

/// The largest distance that any of the entries looks back.
pub open spec fn max_dist<C: CommandTrait>(entries: Seq<TimeEntry<C>>) -> nat
    decreases entries.len(),
{
    if entries.len() == 0 {
        0
    } else {
        let rest = max_dist(entries.drop_last());
        if entries.last().dist > rest {
            entries.last().dist as nat
        } else {
            rest
        }
    }
}

/// A cycle of the history is either the mark of no issue yet, or early
/// enough for any delay of the device to be added to it.
pub open spec fn recorded_ok<T: DramSpec>(spec: T, cycle: u64) -> bool {
    cycle == u64::MAX || cycle + spec.horizon() <= u64::MAX
}

/// The clocks with that of `target` raised to `at_least`, if it was lower.
pub open spec fn raised(clocks: Seq<u64>, target: int, at_least: u64) -> Seq<u64> {
    if 0 <= target < clocks.len() && clocks[target] < at_least {
        clocks.update(target, at_least)
    } else {
        clocks
    }
}

/// The clocks of a node after a sibling of it has issued the command that
/// `entries` belong to, at cycle `clk`: each entry for siblings delays its
/// command until `val` cycles after `clk`.
pub open spec fn sibling_clocks<C: CommandTrait>(
    clocks: Seq<u64>,
    entries: Seq<TimeEntry<C>>,
    clk: u64,
) -> Seq<u64>
    decreases entries.len(),
{
    if entries.len() == 0 {
        clocks
    } else {
        let before = sibling_clocks(clocks, entries.drop_last(), clk);
        let entry = entries.last();
        if entry.sibling {
            raised(before, entry.cmd.index() as int, (clk + entry.val) as u64)
        } else {
            before
        }
    }
}

/// The clocks of a node after it has issued the command that `entries`
/// belong to, where `history` holds the cycles of the latest issues of that
/// command, this one first: each entry for the node itself delays its
/// command until `val` cycles after the issue that lies `dist` back, if
/// there was one.
pub open spec fn own_clocks<C: CommandTrait>(
    clocks: Seq<u64>,
    entries: Seq<TimeEntry<C>>,
    history: Seq<u64>,
) -> Seq<u64>
    decreases entries.len(),
{
    if entries.len() == 0 {
        clocks
    } else {
        let before = own_clocks(clocks, entries.drop_last(), history);
        let entry = entries.last();
        let past = history[entry.dist - 1];
        if !entry.sibling && past != u64::MAX {
            raised(before, entry.cmd.index() as int, (past + entry.val) as u64)
        } else {
            before
        }
    }
}

/// The history with the issue at `clk` put in front and the oldest issue
/// dropped; a history without room stays empty.
pub open spec fn recorded(history: Seq<u64>, clk: u64) -> Seq<u64> {
    if history.len() == 0 {
        history
    } else {
        seq![clk] + history.drop_last()
    }
}

/// The coordinates name a node at every level of the device that has nodes.
pub open spec fn addr_ok<T: DramSpec>(spec: T, addr_vec: Seq<u64>) -> bool {
    &&& addr_vec.len() == T::Level::MAX_LEVEL
    &&& forall|l: int|
        0 <= l < T::Level::row_index() ==> #[trigger] addr_vec[l] < spec.addr_size()[l]
}

impl<T: DramTypes> DramModel<T> {
    /// The two trees have the same shape and differ in the states of their
    /// nodes at most.
    pub open spec fn same_frame(self, other: Self) -> bool
        decreases self,
    {
        &&& self.level == other.level
        &&& self.id == other.id
        &&& self.next_clk == other.next_clk
        &&& self.prev == other.prev
        &&& self.children.len() == other.children.len()
        &&& forall|i: int|
            0 <= i < self.children.len() ==> (#[trigger] self.children[i]).same_frame(
                other.children[i],
            )
    }

    /// The two trees have the same shape and every node of the one is in the
    /// state of the same node of the other.
    pub open spec fn same_states(self, other: Self) -> bool
        decreases self,
    {
        &&& self.state == other.state
        &&& self.children.len() == other.children.len()
        &&& forall|i: int|
            0 <= i < self.children.len() ==> (#[trigger] self.children[i]).same_states(
                other.children[i],
            )
    }

    /// Below every node of the tree hang nodes of the next level only.
    pub open spec fn levels_descend(self) -> bool
        decreases self,
    {
        forall|i: int|
            0 <= i < self.children.len() ==> {
                &&& Some((#[trigger] self.children[i]).level) == self.level.next()
                &&& self.children[i].levels_descend()
            }
    }

    /// The state of every node of the tree is one that `allowed` holds of.
    pub open spec fn states_satisfy(self, allowed: spec_fn(T::Level, State) -> bool) -> bool
        decreases self,
    {
        &&& allowed(self.level, self.state)
        &&& forall|i: int|
            0 <= i < self.children.len() ==> (#[trigger] self.children[i]).states_satisfy(allowed)
    }
}

impl<T: DramSpec> DramModel<T> {
    /// Every node of the tree is in a state that its level allows.
    pub open spec fn states_allowed(self) -> bool {
        self.states_satisfy(|level: T::Level, state: State| T::state_allowed(level, state))
    }

    /// The tree has the shape of the device that `spec` describes: below
    /// each node hang the nodes of the next level, numbered in order and as
    /// many as the device has; each node is in a state that its level
    /// allows and has a clock and a history for every command, the history
    /// as long as the timing table looks back.
    pub open spec fn shaped(self, spec: T) -> bool
        decreases self,
    {
        &&& self.level.index() < T::Level::row_index()
        &&& self.next_clk.len() == T::Command::MAX
        &&& self.prev.len() == T::Command::MAX
        &&& forall|c: int|
            0 <= c < T::Command::MAX ==> (#[trigger] self.prev[c]).len() == max_dist(
                spec.timing(self.level, T::Command::at(c as nat)),
            )
        &&& T::state_allowed(self.level, self.state)
        &&& self.children.len() == (if self.level.index() + 1 < T::Level::row_index() {
            spec.addr_size()[self.level.index() as int + 1] as nat
        } else {
            0
        })
        &&& forall|i: int|
            0 <= i < self.children.len() ==> {
                &&& (#[trigger] self.children[i]).shaped(spec)
                &&& self.children[i].id == i
                &&& Some(self.children[i].level) == self.level.next()
            }
    }

    /// No history of the tree holds a cycle so late that a delay of the
    /// device added to it would leave the range of the clock.
    pub open spec fn records_in_range(self, spec: T) -> bool
        decreases self,
    {
        &&& forall|c: int, k: int|
            0 <= c < self.prev.len() && 0 <= k < self.prev[c].len() ==> recorded_ok(
                spec,
                #[trigger] self.prev[c][k],
            )
        &&& forall|i: int|
            0 <= i < self.children.len() ==> (#[trigger] self.children[i]).records_in_range(spec)
    }

    /// The tree is one of the device that `spec` describes: it has the shape
    /// of the device, and its histories hold no cycle so late that a delay
    /// added to it would leave the range of the clock.
    pub open spec fn wf(self, spec: T) -> bool {
        self.shaped(spec) && self.records_in_range(spec)
    }

    /// The child with number `i` exists and is of the level below.
    pub open spec fn has_child(self, i: u64) -> bool {
        &&& i < self.children.len()
        &&& Some(self.children[i as int].level) == self.level.next()
    }

    /// The command that has to issue first for `cmd` to become possible at
    /// the coordinates: the first objection on the way from this node down
    /// to the bank, or `cmd` itself if there is none.
    pub open spec fn decoded(self, cmd: T::Command, addr_vec: Seq<u64>) -> T::Command
        decreases self,
    {
        let child_index = addr_vec[self.level.index() as int + 1];
        match T::pre_cmd(self, cmd, child_index) {
            Some(command) => command,
            None => if self.level.index() + 1 != T::Level::row_index() && child_index
                < self.children.len() {
                self.children[child_index as int].decoded(cmd, addr_vec)
            } else {
                cmd
            },
        }
    }

    /// Whether `cmd` may issue at cycle `clk`: no node on the way from this
    /// node down to the scope of `cmd` makes it wait longer.
    pub open spec fn ready(self, spec: T, cmd: T::Command, addr_vec: Seq<u64>, clk: u64) -> bool
        decreases self,
    {
        let child_index = addr_vec[self.level.index() as int + 1];
        &&& clk >= self.next_clk[cmd.index() as int]
        &&& (self.level.next() is Some && spec.scope(cmd) != self.level && child_index
            < self.children.len()) ==> self.children[child_index as int].ready(
            spec,
            cmd,
            addr_vec,
            clk,
        )
    }

    /// The tree after `cmd` has changed the states: the rule of the device
    /// is applied at every node on the way from this node down to the scope
    /// of `cmd`.
    pub open spec fn after_state(self, spec: T, cmd: T::Command, addr_vec: Seq<u64>) -> Self
        decreases T::Level::MAX_LEVEL - self.level.index(),
    {
        let child_index = addr_vec[self.level.index() as int + 1];
        let me = spec.next_state(self, cmd, child_index);
        if me.level != spec.scope(cmd) && me.has_child(child_index) {
            let child = me.children[child_index as int];
            proof {
                spec.lemma_next_state_frame(self, cmd, child_index);
                self.level.lemma_level();
            }
            DramModel {
                children: me.children.update(
                    child_index as int,
                    child.after_state(spec, cmd, addr_vec),
                ),
                ..me
            }
        } else {
            me
        }
    }

    /// The tree after the issue of `cmd` at cycle `clk` has been entered
    /// into the clocks. A node that the coordinates do not name is a sibling
    /// of the addressed one: it gets the delays for siblings, and nothing
    /// below it changes. A node that they name records the issue, gets the
    /// delays for the node itself, and so on for each of its children.
    pub open spec fn after_timing(
        self,
        spec: T,
        cmd: T::Command,
        addr_vec: Seq<u64>,
        clk: u64,
    ) -> Self
        decreases self,
    {
        let entries = spec.timing(self.level, cmd);
        if addr_vec[self.level.index() as int] != self.id {
            DramModel { next_clk: sibling_clocks(self.next_clk, entries, clk), ..self }
        } else {
            let c = cmd.index() as int;
            let history = recorded(self.prev[c], clk);
            DramModel {
                prev: self.prev.update(c, history),
                next_clk: own_clocks(self.next_clk, entries, history),
                children: Seq::new(
                    self.children.len(),
                    |i: int|
                        if 0 <= i < self.children.len() {
                            self.children[i].after_timing(spec, cmd, addr_vec, clk)
                        } else {
                            arbitrary()
                        },
                ),
                ..self
            }
        }
    }

    /// The tree after `cmd` has issued at cycle `clk`.
    pub open spec fn after_issue(
        self,
        spec: T,
        cmd: T::Command,
        addr_vec: Seq<u64>,
        clk: u64,
    ) -> Self {
        self.after_state(spec, cmd, addr_vec).after_timing(spec, cmd, addr_vec, clk)
    }

    /// No command has to wait anywhere in the tree.
    pub open spec fn clocks_zero(self) -> bool
        decreases self,
    {
        &&& forall|c: int| 0 <= c < self.next_clk.len() ==> self.next_clk[c] == 0
        &&& forall|i: int|
            0 <= i < self.children.len() ==> (#[trigger] self.children[i]).clocks_zero()
    }

    /// The tree below a fresh node `id` of `level`.
    pub open spec fn fresh(spec: T, level: T::Level, id: nat) -> Self
        decreases T::Level::MAX_LEVEL - level.index(),
    {
        DramModel {
            level,
            id,
            state: T::start_state(level),
            next_clk: Seq::new(T::Command::MAX as nat, |c: int| 0u64),
            prev: Seq::new(
                T::Command::MAX as nat,
                |c: int|
                    Seq::new(
                        max_dist(spec.timing(level, T::Command::at(c as nat))),
                        |k: int| u64::MAX,
                    ),
            ),
            children: match level.next() {
                Some(below) if level.index() + 1 < T::Level::row_index() => Seq::new(
                    spec.addr_size()[level.index() as int + 1] as nat,
                    |i: int|
                        {
                            proof {
                                level.lemma_level();
                            }
                            Self::fresh(spec, below, i as nat)
                        },
                ),
                _ => Seq::empty(),
            },
        }
    }
}

/// No entry looks back farther than the largest distance.
pub proof fn lemma_max_dist<C: CommandTrait>(entries: Seq<TimeEntry<C>>, i: int)
    requires
        0 <= i < entries.len(),
    ensures
        entries[i].dist <= max_dist(entries),
    decreases entries.len(),
{
    if i < entries.len() - 1 {
        lemma_max_dist(entries.drop_last(), i);
    }
}

/// Raising clocks keeps their number and lowers none.
pub proof fn lemma_sibling_clocks<C: CommandTrait>(
    clocks: Seq<u64>,
    entries: Seq<TimeEntry<C>>,
    clk: u64,
)
    ensures
        sibling_clocks(clocks, entries, clk).len() == clocks.len(),
        forall|c: int|
            0 <= c < clocks.len() ==> clocks[c] <= #[trigger] sibling_clocks(
                clocks,
                entries,
                clk,
            )[c],
    decreases entries.len(),
{
    if entries.len() > 0 {
        lemma_sibling_clocks(clocks, entries.drop_last(), clk);
    }
}

/// Raising clocks keeps their number and lowers none.
pub proof fn lemma_own_clocks<C: CommandTrait>(
    clocks: Seq<u64>,
    entries: Seq<TimeEntry<C>>,
    history: Seq<u64>,
)
    ensures
        own_clocks(clocks, entries, history).len() == clocks.len(),
        forall|c: int|
            0 <= c < clocks.len() ==> clocks[c] <= #[trigger] own_clocks(
                clocks,
                entries,
                history,
            )[c],
    decreases entries.len(),
{
    if entries.len() > 0 {
        lemma_own_clocks(clocks, entries.drop_last(), history);
    }
}

/// A tree differs from itself in nothing.
pub proof fn lemma_same_frame_refl<T: DramTypes>(a: DramModel<T>)
    ensures
        a.same_frame(a),
    decreases a,
{
    assert forall|i: int| 0 <= i < a.children.len() implies (#[trigger] a.children[i]).same_frame(
        a.children[i],
    ) by {
        lemma_same_frame_refl(a.children[i]);
    }
}

/// Differing in states only is transitive.
pub proof fn lemma_same_frame_trans<T: DramTypes>(
    a: DramModel<T>,
    b: DramModel<T>,
    c: DramModel<T>,
)
    requires
        a.same_frame(b),
        b.same_frame(c),
    ensures
        a.same_frame(c),
    decreases a,
{
    assert forall|i: int| 0 <= i < a.children.len() implies (#[trigger] a.children[i]).same_frame(
        c.children[i],
    ) by {
        assert(a.children[i].same_frame(b.children[i]));
        assert(b.children[i].same_frame(c.children[i]));
        lemma_same_frame_trans(a.children[i], b.children[i], c.children[i]);
    }
}

/// Every node of a tree is in its own state.
pub proof fn lemma_same_states_refl<T: DramTypes>(a: DramModel<T>)
    ensures
        a.same_states(a),
    decreases a,
{
    assert forall|i: int| 0 <= i < a.children.len() implies (#[trigger] a.children[i]).same_states(
        a.children[i],
    ) by {
        lemma_same_states_refl(a.children[i]);
    }
}

/// A tree in the shape of the device has every node in a state that its
/// level allows, and below every node the nodes of the next level.
pub proof fn lemma_shaped_states_allowed<T: DramSpec>(spec: T, m: DramModel<T>)
    requires
        m.shaped(spec),
    ensures
        m.states_allowed(),
        m.levels_descend(),
    decreases m,
{
    let allowed = |level: T::Level, state: State| T::state_allowed(level, state);
    assert forall|i: int| 0 <= i < m.children.len() implies (#[trigger] m.children[i]).states_satisfy(
        allowed,
    ) && m.children[i].levels_descend() by {
        lemma_shaped_states_allowed(spec, m.children[i]);
    }
}

/// A tree that differs from a tree of the device in its states only, all of
/// them allowed, is a tree of the device too.
pub proof fn lemma_same_frame_shaped<T: DramSpec>(spec: T, m: DramModel<T>, other: DramModel<T>)
    requires
        m.shaped(spec),
        m.same_frame(other),
        other.states_allowed(),
    ensures
        other.shaped(spec),
        m.records_in_range(spec) ==> other.records_in_range(spec),
    decreases m,
{
    assert forall|i: int| 0 <= i < other.children.len() implies {
        &&& (#[trigger] other.children[i]).shaped(spec)
        &&& other.children[i].id == i
        &&& Some(other.children[i].level) == other.level.next()
        &&& m.records_in_range(spec) ==> other.children[i].records_in_range(spec)
    } by {
        assert(m.children[i].same_frame(other.children[i]));
        assert(m.children[i].shaped(spec));
        if m.records_in_range(spec) {
            assert(m.children[i].records_in_range(spec));
        }
        lemma_same_frame_shaped(spec, m.children[i], other.children[i]);
    }
}

/// The state rules of the device lead from a tree of the device to a tree
/// of the device.
pub proof fn lemma_next_state_wf<T: DramSpec>(
    spec: T,
    m: DramModel<T>,
    cmd: T::Command,
    child_id: u64,
)
    requires
        m.shaped(spec),
    ensures
        spec.next_state(m, cmd, child_id).shaped(spec),
        m.wf(spec) ==> spec.next_state(m, cmd, child_id).wf(spec),
        spec.next_state(m, cmd, child_id).level == m.level,
        spec.next_state(m, cmd, child_id).children.len() == m.children.len(),
{
    lemma_shaped_states_allowed(spec, m);
    spec.lemma_next_state_frame(m, cmd, child_id);
    spec.lemma_next_state_allowed(m, cmd, child_id);
    lemma_same_frame_shaped(spec, m, spec.next_state(m, cmd, child_id));
}

/// Changing the states by a command changes nothing but states.
pub proof fn lemma_after_state_frame<T: DramSpec>(
    spec: T,
    m: DramModel<T>,
    cmd: T::Command,
    addr_vec: Seq<u64>,
)
    ensures
        m.same_frame(m.after_state(spec, cmd, addr_vec)),
    decreases T::Level::MAX_LEVEL - m.level.index(),
{
    let child_index = addr_vec[m.level.index() as int + 1];
    let me = spec.next_state(m, cmd, child_index);
    spec.lemma_next_state_frame(m, cmd, child_index);
    m.level.lemma_level();
    if me.level != spec.scope(cmd) && me.has_child(child_index) {
        let child = me.children[child_index as int];
        lemma_after_state_frame(spec, child, cmd, addr_vec);
        let after = m.after_state(spec, cmd, addr_vec);
        assert forall|i: int| 0 <= i < m.children.len() implies (#[trigger] m.children[i]).same_frame(
            after.children[i],
        ) by {
            assert(m.children[i].same_frame(me.children[i]));
            if i == child_index {
                lemma_same_frame_trans(m.children[i], child, after.children[i]);
            }
        }
    }
}

/// Changing the states by a command leads from a tree of the device to a
/// tree of the device.
pub proof fn lemma_after_state_wf<T: DramSpec>(
    spec: T,
    m: DramModel<T>,
    cmd: T::Command,
    addr_vec: Seq<u64>,
)
    requires
        m.shaped(spec),
    ensures
        m.after_state(spec, cmd, addr_vec).shaped(spec),
        m.wf(spec) ==> m.after_state(spec, cmd, addr_vec).wf(spec),
    decreases T::Level::MAX_LEVEL - m.level.index(),
{
    let child_index = addr_vec[m.level.index() as int + 1];
    let me = spec.next_state(m, cmd, child_index);
    lemma_next_state_wf(spec, m, cmd, child_index);
    m.level.lemma_level();
    if me.level != spec.scope(cmd) && me.has_child(child_index) {
        let child = me.children[child_index as int];
        lemma_after_state_wf(spec, child, cmd, addr_vec);
        lemma_after_state_frame(spec, child, cmd, addr_vec);
        if m.wf(spec) {
            assert(me.records_in_range(spec));
            assert(child.records_in_range(spec));
        }
    }
}

/// Entering an issue into the clocks leads from a tree of the device to a
/// tree of the device, if the delays of the device can be added to the
/// cycle of the issue; it keeps to the shape of the device in any case.
pub proof fn lemma_after_timing_wf<T: DramSpec>(
    spec: T,
    m: DramModel<T>,
    cmd: T::Command,
    addr_vec: Seq<u64>,
    clk: u64,
)
    requires
        m.shaped(spec),
    ensures
        m.after_timing(spec, cmd, addr_vec, clk).shaped(spec),
        m.wf(spec) && clk + spec.horizon() <= u64::MAX ==> m.after_timing(
            spec,
            cmd,
            addr_vec,
            clk,
        ).wf(spec),
    decreases m,
{
    let entries = spec.timing(m.level, cmd);
    let after = m.after_timing(spec, cmd, addr_vec, clk);
    cmd.lemma_command();
    if addr_vec[m.level.index() as int] != m.id {
        lemma_sibling_clocks(m.next_clk, entries, clk);
    } else {
        let c = cmd.index() as int;
        let history = recorded(m.prev[c], clk);
        lemma_own_clocks(m.next_clk, entries, history);
        let in_range = m.wf(spec) && clk + spec.horizon() <= u64::MAX;
        assert forall|i: int| 0 <= i < after.children.len() implies {
            &&& (#[trigger] after.children[i]).shaped(spec)
            &&& after.children[i].id == i
            &&& Some(after.children[i].level) == after.level.next()
            &&& in_range ==> after.children[i].records_in_range(spec)
        } by {
            if in_range {
                assert(m.children[i].records_in_range(spec));
            }
            lemma_after_timing_wf(spec, m.children[i], cmd, addr_vec, clk);
        }
        if in_range {
            assert forall|k: int, j: int|
                0 <= k < after.prev.len() && 0 <= j < after.prev[k].len() implies recorded_ok(
                spec,
                #[trigger] after.prev[k][j],
            ) by {
                if k == c {
                    if j > 0 {
                        assert(after.prev[k][j] == m.prev[c][j - 1]);
                    }
                } else {
                    assert(after.prev[k][j] == m.prev[k][j]);
                }
            }
        }
    }
}

/// Entering an issue into the clocks changes no state.
pub proof fn lemma_after_timing_states<T: DramSpec>(
    spec: T,
    m: DramModel<T>,
    cmd: T::Command,
    addr_vec: Seq<u64>,
    clk: u64,
)
    ensures
        m.same_states(m.after_timing(spec, cmd, addr_vec, clk)),
    decreases m,
{
    let after = m.after_timing(spec, cmd, addr_vec, clk);
    assert forall|i: int| 0 <= i < m.children.len() implies (#[trigger] m.children[i]).same_states(
        after.children[i],
    ) by {
        if addr_vec[m.level.index() as int] != m.id {
            lemma_same_states_refl(m.children[i]);
        } else {
            lemma_after_timing_states(spec, m.children[i], cmd, addr_vec, clk);
        }
    }
}

/// A fresh tree is one of the device.
pub proof fn lemma_fresh_wf<T: DramSpec>(spec: T, level: T::Level, id: nat)
    requires
        spec.wf(),
        level.index() < T::Level::row_index(),
    ensures
        DramModel::<T>::fresh(spec, level, id).wf(spec),
        DramModel::<T>::fresh(spec, level, id).clocks_zero(),
    decreases T::Level::MAX_LEVEL - level.index(),
{
    let m = DramModel::<T>::fresh(spec, level, id);
    level.lemma_level();
    T::lemma_start_state(level);
    assert forall|i: int| 0 <= i < m.children.len() implies {
        &&& (#[trigger] m.children[i]).shaped(spec)
        &&& m.children[i].records_in_range(spec)
        &&& m.children[i].clocks_zero()
        &&& m.children[i].id == i
        &&& Some(m.children[i].level) == m.level.next()
    } by {
        let below = level.next()->Some_0;
        lemma_fresh_wf(spec, below, i as nat);
    }
}

} // verus!
