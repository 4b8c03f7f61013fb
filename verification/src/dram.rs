//! The device tree of one channel and the interface of a device generation.
//!
//! A device generation (see [`DramSpec`]) gives the levels of the hierarchy,
//! the commands, the timing table and the rules by which commands change the
//! state of a node. [`Dram`] is a node of the tree with the subtree below
//! it; its view is the [`DramModel`] over which the contracts are stated.
use vstd::prelude::*;
use std::collections::VecDeque;
use crate::clocks::{lemma_issue_keeps_history_ordered, lemma_issue_lowers_no_clock};
use crate::memory::MappingType;
use crate::model::{
    addr_ok, entry_ok, lemma_after_state_wf, lemma_after_timing_wf, lemma_fresh_wf, lemma_max_dist,
    lemma_next_state_wf, max_dist, own_clocks, recorded, recorded_ok, sibling_clocks, DramModel,
};
use crate::request::ReqType;

verus! {

/// The latency between two commands.
///
/// Issuing the command that owns the entry delays `cmd`: by `val` cycles from
/// the `dist`-th most recent issue at the node itself, or, if `sibling` is
/// set, from now on every sibling of the node.
#[derive(Clone, Copy, Debug)]
pub struct TimeEntry<Command: CommandTrait> {
    pub cmd: Command,
    pub dist: usize,
    pub val: u64,
    pub sibling: bool,
}

/// The levels of a device hierarchy, from the channel downwards.
pub trait LevelTrait: Sized + Copy {
    const MAX_LEVEL: usize;

    /// The position of the level, counted from the channel, which has 0.
    spec fn index(&self) -> nat;

    /// The position of the row level.
    spec fn row_index() -> nat;

    /// The level directly below, if there is one.
    spec fn next(&self) -> Option<Self>;

    /// Whether the hierarchy has a bank group level.
    spec fn bank_group() -> bool;

    /// Levels are numbered without gaps, and the row is neither the first nor
    /// beyond the last.
    proof fn lemma_level(&self)
        ensures
            self.index() < Self::MAX_LEVEL,
            0 < Self::row_index() < Self::MAX_LEVEL,
            match self.next() {
                Some(below) => below.index() == self.index() + 1,
                None => self.index() + 1 == Self::MAX_LEVEL,
            },
    ;

    proof fn lemma_level_by_index(a: Self, b: Self)
        ensures
            a.index() == b.index() ==> a == b,
    ;

    /// The channel is above the row.
    proof fn lemma_level_zero()
        ensures
            0 < Self::row_index() < Self::MAX_LEVEL,
    ;

    fn next_level(&self) -> (r: Option<Self>)
        ensures
            r == self.next(),
    ;

    fn channel() -> (r: Self)
        ensures
            r.index() == 0,
    ;

    fn is_row(&self) -> (r: bool)
        ensures
            r == (self.index() == Self::row_index()),
    ;

    /// Whether the level has nodes in the device tree: the levels above the
    /// row have.
    fn need_init_dram(&self) -> (r: bool)
        ensures
            r == (self.index() < Self::row_index()),
    ;

    fn is_bank(&self) -> (r: bool)
        ensures
            r == (self.index() + 1 == Self::row_index()),
    ;

    fn have_bank_group() -> (r: bool)
        ensures
            r == Self::bank_group(),
    ;

    fn is_channel(&self) -> (r: bool)
        ensures
            r == (self.index() == 0),
    ;

    fn to_usize(&self) -> (r: usize)
        ensures
            r == self.index(),
    ;
}

/// The commands of a device generation.
pub trait CommandTrait: Sized + Copy {
    const MAX: usize;

    /// The number of the command.
    spec fn index(&self) -> nat;

    /// The command with number `i`.
    spec fn at(i: nat) -> Self;

    /// Whether the command opens a row.
    spec fn activates(&self) -> bool;

    /// Commands are numbered without gaps below `MAX`, which fits a byte.
    proof fn lemma_command(&self)
        ensures
            self.index() < Self::MAX,
            Self::MAX <= 256,
            Self::at(self.index()) == *self,
    ;

    proof fn lemma_command_at(i: nat)
        requires
            i < Self::MAX,
        ensures
            Self::at(i).index() == i,
    ;

    fn try_from_u8(val: u8) -> (r: Result<Self, ()>)
        ensures
            r == (if (val as nat) < Self::MAX {
                Ok::<Self, ()>(Self::at(val as nat))
            } else {
                Err(())
            }),
    ;

    fn to_u8(self) -> (r: u8)
        ensures
            r == self.index(),
    ;

    /// The command whose number is the low byte of `val`.
    fn try_from_usize(val: usize) -> (r: Result<Self, ()>)
        ensures
            r == (if ((val as u8) as nat) < Self::MAX {
                Ok::<Self, ()>(Self::at((val as u8) as nat))
            } else {
                Err(())
            }),
    ;

    fn to_usize(self) -> (r: usize)
        ensures
            r == self.index(),
    ;

    fn is_act(&self) -> (r: bool)
        ensures
            r == self.activates(),
    ;
}

pub trait LevelSlice {

}

/// The state of a node of the device tree.
#[derive(Clone, Copy, Debug, PartialEq, Eq, Structural)]
pub enum State {
    Opened(u64),
    Closed,
    PowerUp,
    ActPowerDown,
    PrePowerDown,
    SelfRefresh,
    NoUse,
}

/// The types by which a device generation names its levels and commands.
pub trait DramTypes: Sized {
    /// The type to represent a level.
    type Level: LevelTrait;

    /// The type to represent a command.
    type Command: CommandTrait;
}

/// A node of the device tree of one channel, with the subtree below it.
pub struct Dram<T: DramTypes> {
    pub level: T::Level,
    pub children: Vec<Dram<T>>,
    pub state: State,
    pub next_clk: Vec<u64>,
    pub prev: Vec<VecDeque<u64>>,
    pub id: usize,
}

/// A device generation: its hierarchy, its commands, its timing table and the
/// rules by which its commands are chosen and change the device.
pub trait DramSpec: DramTypes {
    /// The parameters are consistent.
    spec fn wf(&self) -> bool;

    /// The command that completes a request of the given type.
    spec fn first_cmd(req_type: ReqType) -> Self::Command;

    /// The command that has to issue before `cmd` can, as far as the node
    /// `dram` can tell; `child_id` is the coordinate of the request at the
    /// level below. `None` means that the node has no objection and the
    /// level below decides.
    spec fn pre_cmd(dram: DramModel<Self>, cmd: Self::Command, child_id: u64) -> Option<
        Self::Command,
    >;

    /// The state of a fresh node of the level.
    spec fn start_state(level: Self::Level) -> State;

    /// The states that a node of the level can be in.
    spec fn state_allowed(level: Self::Level, state: State) -> bool;

    /// The lowest level that a command applies to.
    spec fn scope(&self, cmd: Self::Command) -> Self::Level;

    /// The node `dram` after `cmd` has passed it on its way to the addressed
    /// child `child_id`.
    spec fn next_state(&self, dram: DramModel<Self>, cmd: Self::Command, child_id: u64) -> DramModel<
        Self,
    >;

    /// The delays that issuing `cmd` at a node of `level` imposes.
    spec fn timing(&self, level: Self::Level, cmd: Self::Command) -> Seq<TimeEntry<Self::Command>>;

    /// The cycles from the issue of a read to its data.
    spec fn read_latency(&self) -> u64;

    /// The width in bits of the coordinate of each level.
    spec fn addr_bits(&self) -> Seq<usize>;

    /// The number of nodes of each level below one node of the level above.
    spec fn addr_size(&self) -> Seq<usize>;

    /// The coordinates of a byte address.
    spec fn decoded_addr(&self, addr: u64, mapping_type: MappingType) -> Seq<u64>;

    /// The byte address of the coordinates; its six lowest bits are zero.
    spec fn encoded_addr(&self, addr_vec: Seq<u64>, mapping_type: MappingType) -> u64;

    /// The number of reads per read request.
    spec fn prefetch_size(&self) -> usize;

    /// The width of the channel in bits.
    spec fn channel_width(&self) -> usize;

    /// A bound on every delay of the timing table and on the read latency.
    spec fn horizon(&self) -> nat;

    /// The tables have an entry for every level, and every timing entry is
    /// well formed and within the horizon.
    proof fn lemma_tables(&self)
        requires
            self.wf(),
        ensures
            self.addr_bits().len() == Self::Level::MAX_LEVEL,
            self.addr_size().len() == Self::Level::MAX_LEVEL,
            self.read_latency() <= self.horizon(),
            forall|level: Self::Level, cmd: Self::Command, i: int|
                0 <= i < self.timing(level, cmd).len() ==> entry_ok(
                    #[trigger] self.timing(level, cmd)[i],
                ) && self.timing(level, cmd)[i].val <= self.horizon(),
    ;

    /// A fresh node is in a state that its level allows.
    proof fn lemma_start_state(level: Self::Level)
        ensures
            Self::state_allowed(level, Self::start_state(level)),
    ;

    /// A command changes nothing but states.
    proof fn lemma_next_state_frame(&self, dram: DramModel<Self>, cmd: Self::Command, child_id: u64)
        ensures
            dram.same_frame(self.next_state(dram, cmd, child_id)),
    ;

    /// A command leaves every node in a state that its level allows.
    proof fn lemma_next_state_allowed(
        &self,
        dram: DramModel<Self>,
        cmd: Self::Command,
        child_id: u64,
    )
        requires
            dram.levels_descend(),
            dram.states_satisfy(|level: Self::Level, state: State| Self::state_allowed(level, state)),
        ensures
            self.next_state(dram, cmd, child_id).states_satisfy(
                |level: Self::Level, state: State| Self::state_allowed(level, state),
            ),
    ;

    /// Decoding gives one coordinate per level, each within the size of its
    /// level where the level has any node at all.
    proof fn lemma_decoded_addr(&self, addr: u64, mapping_type: MappingType)
        requires
            self.wf(),
        ensures
            self.decoded_addr(addr, mapping_type).len() == Self::Level::MAX_LEVEL,
            forall|l: int|
                0 <= l < Self::Level::MAX_LEVEL && self.addr_size()[l] > 0
                    ==> #[trigger] self.decoded_addr(addr, mapping_type)[l]
                    < self.addr_size()[l],
    ;

    /// Get the first command that a request should issue.
    fn get_first_cmd(req_type: &ReqType) -> (r: Self::Command)
        ensures
            r == Self::first_cmd(*req_type),
    ;

    /// Get the command to issue before `cmd`, according to the state of
    /// `dram`.
    fn get_pre_cmd(dram: &Dram<Self>, cmd: &Self::Command, child_id: u64) -> (r: Option<
        Self::Command,
    >)
        requires
            Self::state_allowed(dram.level, dram.state),
        ensures
            r == Self::pre_cmd(dram@, *cmd, child_id),
    ;

    /// For some level, get the initial state.
    fn get_start_state(level: &Self::Level) -> (r: State)
        ensures
            r == Self::start_state(*level),
    ;

    /// Convert an address to its coordinates.
    fn decode_addr(&self, addr: u64, mapping_type: &MappingType) -> (r: Vec<u64>)
        requires
            self.wf(),
        ensures
            r@ == self.decoded_addr(addr, *mapping_type),
    ;

    /// Convert coordinates to an address.
    fn encode_addr(&self, addr: &[u64], mapping_type: &MappingType) -> (r: u64)
        requires
            self.wf(),
            addr@.len() == Self::Level::MAX_LEVEL,
        ensures
            r == self.encoded_addr(addr@, *mapping_type),
    ;

    /// The bits of a level.
    fn get_addr_bits(&self, level: &Self::Level) -> (r: usize)
        requires
            self.wf(),
        ensures
            r == self.addr_bits()[level.index() as int],
    ;

    /// Full address bits from high (channel) to low.
    fn get_full_addr_bits(&self) -> (r: &[usize])
        ensures
            r@ == self.addr_bits(),
    ;

    /// The size of a level.
    fn get_addr_size(&self, level: &Self::Level) -> (r: usize)
        requires
            self.wf(),
        ensures
            r == self.addr_size()[level.index() as int],
    ;

    /// Full address size from high (channel) to low.
    fn get_full_addr_size(&self) -> (r: &[usize])
        ensures
            r@ == self.addr_size(),
    ;

    /// Get the lowest level that is related to a command.
    fn get_scope(&self, cmd: &Self::Command) -> (r: Self::Level)
        ensures
            r == self.scope(*cmd),
    ;

    /// Update the state of `dram` according to the command; `child_id` is
    /// the coordinate at the level below (for a bank, the row).
    fn update_state(&self, dram: &mut Dram<Self>, cmd: &Self::Command, child_id: u64)
        ensures
            final(dram)@ == self.next_state(old(dram)@, *cmd, child_id),
    ;

    fn get_timming(&self, level: &Self::Level, cmd: &Self::Command) -> (r: &[TimeEntry<
        Self::Command,
    >])
        requires
            self.wf(),
        ensures
            r@ == self.timing(*level, *cmd),
    ;

    fn get_read_latency(&self) -> (r: u64)
        ensures
            r == self.read_latency(),
    ;

    /// The number of reads per read request.
    fn get_prefetch_size(&self) -> (r: usize)
        ensures
            r == self.prefetch_size(),
    ;

    /// The channel output bits.
    fn get_channel_width(&self) -> (r: usize)
        ensures
            r == self.channel_width(),
    ;
}

impl<T: DramTypes> Dram<T> {
    /// The model of the node and of the subtree below it.
    pub open spec fn model(&self) -> DramModel<T>
        decreases self,
    {
        DramModel {
            level: self.level,
            id: self.id as nat,
            state: self.state,
            next_clk: self.next_clk@,
            prev: Seq::new(self.prev.len() as nat, |c: int| self.prev[c]@),
            children: Seq::new(
                self.children.len() as nat,
                |i: int|
                    if 0 <= i < self.children.len() {
                        self.children[i].model()
                    } else {
                        arbitrary()
                    },
            ),
        }
    }
}

impl<T: DramTypes> View for Dram<T> {
    type V = DramModel<T>;

    open spec fn view(&self) -> DramModel<T> {
        self.model()
    }
}

impl<T: DramSpec> Dram<T> {
    /// The tree below a fresh node `id` of `level`: every node in the start
    /// state of its level, no command delayed, no issue recorded.
    pub fn new(spec: &T, level: T::Level, id: usize) -> (r: Self)
        requires
            spec.wf(),
            level.index() < T::Level::row_index(),
        ensures
            r@ == DramModel::<T>::fresh(*spec, level, id as nat),
            r@.wf(*spec),
        decreases T::Level::MAX_LEVEL - level.index(),
    {
        proof {
            level.lemma_level();
            spec.lemma_tables();
            lemma_fresh_wf(*spec, level, id as nat);
        }
        let state = T::get_start_state(&level);
        let child_level = level.next_level().unwrap();
        let mut children: Vec<Dram<T>> = Vec::new();
        if child_level.need_init_dram() {
            let n = spec.get_addr_size(&child_level);
            let mut i: usize = 0;
            while i < n
                invariant
                    i <= n,
                    spec.wf(),
                    Some(child_level) == level.next(),
                    child_level.index() == level.index() + 1,
                    child_level.index() < T::Level::row_index(),
                    T::Level::row_index() < T::Level::MAX_LEVEL,
                    children@.len() == i,
                    forall|j: int|
                        0 <= j < i ==> (#[trigger] children@[j])@ == DramModel::<T>::fresh(
                            *spec,
                            child_level,
                            j as nat,
                        ),
                decreases n - i,
            {
                children.push(Dram::new(spec, child_level, i));
                i += 1;
            }
        }
        let mut prev: Vec<VecDeque<u64>> = Vec::new();
        let mut next_clk: Vec<u64> = Vec::new();
        let mut c: usize = 0;
        while c < T::Command::MAX
            invariant
                c <= T::Command::MAX,
                spec.wf(),
                prev@.len() == c,
                next_clk@.len() == c,
                forall|k: int| 0 <= k < c ==> next_clk@[k] == 0,
                forall|k: int|
                    0 <= k < c ==> (#[trigger] prev@[k])@ == Seq::new(
                        max_dist(spec.timing(level, T::Command::at(k as nat))),
                        |d: int| u64::MAX,
                    ),
            decreases T::Command::MAX - c,
        {
            proof {
                T::Command::lemma_command_at(c as nat);
                T::Command::at(c as nat).lemma_command();
            }
            let cmd = T::Command::try_from_usize(c).unwrap();
            let entries = spec.get_timming(&level, &cmd);
            let mut dist: usize = 0;
            let mut j: usize = 0;
            while j < entries.len()
                invariant
                    j <= entries.len(),
                    dist == max_dist(entries@.take(j as int)),
                decreases entries.len() - j,
            {
                assert(entries@.take(j + 1).drop_last() =~= entries@.take(j as int));
                if entries[j].dist > dist {
                    dist = entries[j].dist;
                }
                j += 1;
            }
            assert(entries@.take(j as int) =~= entries@);
            let mut tmp: VecDeque<u64> = VecDeque::new();
            let mut d: usize = 0;
            while d < dist
                invariant
                    d <= dist,
                    tmp@.len() == d,
                    forall|k: int| 0 <= k < d ==> tmp@[k] == u64::MAX,
                decreases dist - d,
            {
                tmp.push_back(u64::MAX);
                d += 1;
            }
            assert(tmp@ =~= Seq::new(dist as nat, |d: int| u64::MAX));
            prev.push(tmp);
            next_clk.push(0);
            c += 1;
        }
        let r = Self { level, state, children, next_clk, prev, id };
        proof {
            let m = DramModel::<T>::fresh(*spec, level, id as nat);
            assert(r@.next_clk =~= m.next_clk);
            assert(r@.prev =~= m.prev);
            assert(r@.children =~= m.children);
        }
        r
    }

    /// The command to issue now for `cmd` to become possible at the
    /// coordinates: `cmd` itself, or what has to issue before it.
    pub fn decode(&self, spec: &T, cmd: &T::Command, addr_vec: &[u64]) -> (r: T::Command)
        requires
            spec.wf(),
            self@.wf(*spec),
            addr_ok(*spec, addr_vec@),
        ensures
            r == self@.decoded(*cmd, addr_vec@),
        decreases T::Level::MAX_LEVEL - self.level.index(),
    {
        proof {
            self.level.lemma_level();
            spec.lemma_tables();
        }
        let child_index = addr_vec[self.level.to_usize() + 1];
        if let Some(command) = T::get_pre_cmd(self, cmd, child_index) {
            return command;
        }
        if self.level.is_bank() || self.children.len() == 0 {
            *cmd
        } else {
            assert(self@.children[child_index as int] == self.children@[child_index as int]@);
            proof {
                self.children@[child_index as int].level.lemma_level();
            }
            self.children[child_index as usize].decode(spec, cmd, addr_vec)
        }
    }

    pub fn get_first_cmd(&self, req_type: &ReqType) -> (r: T::Command)
        ensures
            r == T::first_cmd(*req_type),
    {
        T::get_first_cmd(req_type)
    }

    /// Issues `cmd` at cycle `clk`: the states change by the rules of the
    /// device, and the clocks take up the delays that follow from the issue.
    pub fn update(&mut self, spec: &T, cmd: &T::Command, addr_vec: &[u64], clk: u64)
        requires
            spec.wf(),
            old(self)@.wf(*spec),
            addr_ok(*spec, addr_vec@),
            clk + spec.horizon() <= u64::MAX,
        ensures
            final(self)@ == old(self)@.after_issue(*spec, *cmd, addr_vec@, clk),
            final(self)@.wf(*spec),
            old(self)@.no_clock_after(final(self)@),
            old(self)@.history_until(clk) && clk != u64::MAX ==> final(self)@.history_until(clk),
    {
        proof {
            lemma_issue_lowers_no_clock(*spec, self@, *cmd, addr_vec@, clk);
            if self@.history_until(clk) && clk != u64::MAX {
                lemma_issue_keeps_history_ordered(*spec, self@, *cmd, addr_vec@, clk);
            }
            lemma_after_state_wf(*spec, self@, *cmd, addr_vec@);
            lemma_after_timing_wf(
                *spec,
                self@.after_state(*spec, *cmd, addr_vec@),
                *cmd,
                addr_vec@,
                clk,
            );
        }
        self.update_state(spec, cmd, addr_vec);
        self.update_timming(spec, cmd, addr_vec, clk);
    }

    /// Changes the states as the issue of `cmd` demands.
    pub fn update_state(&mut self, spec: &T, cmd: &T::Command, addr_vec: &[u64])
        requires
            spec.wf(),
            old(self)@.wf(*spec),
            addr_ok(*spec, addr_vec@),
        ensures
            final(self)@ == old(self)@.after_state(*spec, *cmd, addr_vec@),
        decreases T::Level::MAX_LEVEL - old(self).level.index(),
    {
        proof {
            self.level.lemma_level();
            spec.lemma_tables();
        }
        let child_level = self.level.next_level().unwrap();
        let child_index = addr_vec[child_level.to_usize()];
        proof {
            lemma_next_state_wf(*spec, self@, *cmd, child_index);
        }
        spec.update_state(self, cmd, child_index);
        let ghost me = self@;
        let scope = spec.get_scope(cmd);
        proof {
            T::Level::lemma_level_by_index(self.level, scope);
        }
        if self.level.to_usize() == scope.to_usize() || self.children.len() == 0 {
            return ;
        }
        assert(me.children[child_index as int] == self.children@[child_index as int]@);
        proof {
            self.children@[child_index as int].level.lemma_level();
        }
        self.children[child_index as usize].update_state(spec, cmd, addr_vec);
        assert(self@.children =~= me.children.update(
            child_index as int,
            me.children[child_index as int].after_state(*spec, *cmd, addr_vec@),
        ));
    }

    /// Enters the issue of `cmd` at cycle `clk` into the clocks.
    pub fn update_timming(&mut self, spec: &T, cmd: &T::Command, addr_vec: &[u64], clk: u64)
        requires
            spec.wf(),
            old(self)@.wf(*spec),
            addr_ok(*spec, addr_vec@),
            clk + spec.horizon() <= u64::MAX,
        ensures
            final(self)@ == old(self)@.after_timing(*spec, *cmd, addr_vec@, clk),
        decreases T::Level::MAX_LEVEL - old(self).level.index(),
    {
        proof {
            self.level.lemma_level();
            spec.lemma_tables();
            cmd.lemma_command();
        }
        let ghost before = self@;
        let entries = spec.get_timming(&self.level, cmd);
        let target_id = addr_vec[self.level.to_usize()] as usize;
        if target_id != self.id {
            // a sibling of the addressed node: only the delays for siblings
            let mut j: usize = 0;
            while j < entries.len()
                invariant
                    j <= entries.len(),
                    spec.wf(),
                    entries@ == spec.timing(self.level, *cmd),
                    clk + spec.horizon() <= u64::MAX,
                    self.level == old(self).level,
                    self.id == old(self).id,
                    self.state == old(self).state,
                    self.prev == old(self).prev,
                    self.children == old(self).children,
                    self.next_clk@.len() == T::Command::MAX,
                    self.next_clk@ == sibling_clocks(
                        old(self).next_clk@,
                        entries@.take(j as int),
                        clk,
                    ),
                decreases entries.len() - j,
            {
                proof {
                    spec.lemma_tables();
                    entries@[j as int].cmd.lemma_command();
                    assert(entries@.take(j + 1).drop_last() =~= entries@.take(j as int));
                    assert(entries@ [j as int] == spec.timing(self.level, *cmd)[j as int]);
                }
                let timing = entries[j];
                if timing.sibling {
                    let future = clk + timing.val;
                    let target = timing.cmd.to_usize();
                    if self.next_clk[target] < future {
                        self.next_clk[target] = future;
                    }
                }
                j += 1;
            }
            assert(entries@.take(j as int) =~= entries@);
            assert(self@.prev =~= before.prev);
            assert(self@.children =~= before.children);
            return ;
        }
        let c = cmd.to_usize();
        if self.prev[c].len() > 0 {
            self.prev[c].pop_back();
            self.prev[c].push_front(clk);
        }
        let ghost history = recorded(before.prev[c as int], clk);
        assert(self.prev@[c as int]@ =~= history);
        assert(self@.prev =~= before.prev.update(c as int, history));
        let mut j: usize = 0;
        while j < entries.len()
            invariant
                j <= entries.len(),
                spec.wf(),
                before.wf(*spec),
                before == old(self)@,
                c == cmd.index(),
                c < T::Command::MAX,
                entries@ == spec.timing(self.level, *cmd),
                history == recorded(before.prev[c as int], clk),
                clk + spec.horizon() <= u64::MAX,
                self.level == old(self).level,
                self.id == old(self).id,
                self.state == old(self).state,
                self.children == old(self).children,
                self.prev@.len() == T::Command::MAX,
                self.prev@[c as int]@ == history,
                self@.prev == before.prev.update(c as int, history),
                self.next_clk@.len() == T::Command::MAX,
                self.next_clk@ == own_clocks(
                    old(self).next_clk@,
                    entries@.take(j as int),
                    history,
                ),
            decreases entries.len() - j,
        {
            proof {
                spec.lemma_tables();
                entries@[j as int].cmd.lemma_command();
                cmd.lemma_command();
                lemma_max_dist(entries@, j as int);
                assert(entries@.take(j + 1).drop_last() =~= entries@.take(j as int));
                assert(entries@ [j as int] == spec.timing(self.level, *cmd)[j as int]);
                assert(T::Command::at(c as nat) == *cmd);
                assert(before.prev[c as int].len() == max_dist(entries@));
            }
            let timing = entries[j];
            if !timing.sibling {
                let past = self.prev[c][timing.dist - 1];
                if past != u64::MAX {
                    assert(recorded_ok(*spec, past)) by {
                        if timing.dist - 1 > 0 {
                            assert(past == before.prev[c as int][timing.dist - 2]);
                        }
                    }
                    let future = past + timing.val;
                    let target = timing.cmd.to_usize();
                    if self.next_clk[target] < future {
                        self.next_clk[target] = future;
                    }
                }
            }
            j += 1;
        }
        assert(entries@.take(j as int) =~= entries@);
        let n = self.children.len();
        let mut i: usize = 0;
        while i < n
            invariant
                i <= n,
                n == self.children@.len(),
                n == before.children.len(),
                spec.wf(),
                before.wf(*spec),
                before == old(self)@,
                addr_ok(*spec, addr_vec@),
                clk + spec.horizon() <= u64::MAX,
                self.level == old(self).level,
                self.id == old(self).id,
                self.state == old(self).state,
                self.prev@.len() == T::Command::MAX,
                self@.prev == before.prev.update(cmd.index() as int, history),
                self.next_clk@ == own_clocks(old(self).next_clk@, entries@, history),
                forall|k: int|
                    0 <= k < i ==> (#[trigger] self.children@[k])@ == before.children[k].after_timing(
                        *spec,
                        *cmd,
                        addr_vec@,
                        clk,
                    ),
                forall|k: int| i <= k < n ==> (#[trigger] self.children@[k])@ == before.children[k],
            decreases n - i,
        {
            proof {
                assert(before.children[i as int].wf(*spec));
                self.level.lemma_level();
                before.children[i as int].level.lemma_level();
            }
            let ghost kids = self.children@;
            let ghost hist_before = self@.prev;
            self.children[i].update_timming(spec, cmd, addr_vec, clk);
            assert(forall|k: int| 0 <= k < n && k != i ==> self.children@[k] == kids[k]);
            assert(self@.prev =~= hist_before);
            i += 1;
        }
        assert(self@.children =~= before.after_timing(*spec, *cmd, addr_vec@, clk).children);
    }

    /// Whether `cmd` may issue at cycle `clk`.
    pub fn check(&self, spec: &T, cmd: &T::Command, addr_vec: &[u64], clk: u64) -> (r: bool)
        requires
            spec.wf(),
            self@.wf(*spec),
            addr_ok(*spec, addr_vec@),
        ensures
            r == self@.ready(*spec, *cmd, addr_vec@, clk),
        decreases T::Level::MAX_LEVEL - self.level.index(),
    {
        proof {
            self.level.lemma_level();
            spec.lemma_tables();
            cmd.lemma_command();
        }
        if clk < self.get_next_avaliable_clk(cmd) {
            return false;
        }
        if let Some(child_level) = self.level.next_level() {
            let scope = spec.get_scope(cmd);
            proof {
                T::Level::lemma_level_by_index(self.level, scope);
            }
            if scope.to_usize() != self.level.to_usize() && self.children.len() > 0 {
                let child_index = addr_vec[child_level.to_usize()];
                assert(self@.children[child_index as int] == self.children@[child_index as int]@);
                proof {
                    self.children@[child_index as int].level.lemma_level();
                }
                return self.children[child_index as usize].check(spec, cmd, addr_vec, clk);
            }
        }
        true
    }

    /// The first cycle at which `cmd` may issue at this node.
    pub fn get_next_avaliable_clk(&self, cmd: &T::Command) -> (r: u64)
        requires
            self.next_clk@.len() == T::Command::MAX,
        ensures
            r == self@.next_clk[cmd.index() as int],
    {
        proof {
            cmd.lemma_command();
        }
        self.next_clk[cmd.to_usize()]
    }
}

} // verus!
