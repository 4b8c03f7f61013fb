//! The DDR4 device generation: its levels, commands, organisations, speed
//! bins, timing table and state rules.
use vstd::prelude::*;
use crate::config::Config;
use crate::dram::{CommandTrait, Dram, DramSpec, DramTypes, LevelTrait, State, TimeEntry};
use crate::model::{DramModel};
use crate::memory::MappingType;
use crate::request::ReqType;
use crate::utils;

verus! {

/// The levels of the DDR4 hierarchy.
#[derive(Debug, Clone, Copy, PartialEq, Eq, Structural)]
pub enum Level {
    Channel,
    Rank,
    BankGroup,
    Bank,
    Row,
    Column,
}

impl Level {
    pub fn next_level(&self) -> (r: Option<Level>)
        ensures
            r == self.next(),
    {
        match self {
            Level::Channel => Some(Level::Rank),
            Level::Rank => Some(Level::BankGroup),
            Level::BankGroup => Some(Level::Bank),
            Level::Bank => Some(Level::Row),
            Level::Row => Some(Level::Column),
            Level::Column => None,
        }
    }
}

impl LevelTrait for Level {
    const MAX_LEVEL: usize = 6;

    open spec fn index(&self) -> nat {
        match self {
            Level::Channel => 0,
            Level::Rank => 1,
            Level::BankGroup => 2,
            Level::Bank => 3,
            Level::Row => 4,
            Level::Column => 5,
        }
    }

    open spec fn row_index() -> nat {
        4
    }

    open spec fn next(&self) -> Option<Self> {
        match self {
            Level::Channel => Some(Level::Rank),
            Level::Rank => Some(Level::BankGroup),
            Level::BankGroup => Some(Level::Bank),
            Level::Bank => Some(Level::Row),
            Level::Row => Some(Level::Column),
            Level::Column => None,
        }
    }

    open spec fn bank_group() -> bool {
        true
    }

    proof fn lemma_level(&self) {
    }

    proof fn lemma_level_by_index(a: Self, b: Self) {
    }

    proof fn lemma_level_zero() {
    }

    fn is_row(&self) -> (r: bool) {
        *self == Level::Row
    }

    fn is_bank(&self) -> (r: bool) {
        *self == Level::Bank
    }

    fn have_bank_group() -> (r: bool) {
        true
    }

    fn is_channel(&self) -> (r: bool) {
        *self == Level::Channel
    }

    fn to_usize(&self) -> (r: usize) {
        match self {
            Level::Channel => 0,
            Level::Rank => 1,
            Level::BankGroup => 2,
            Level::Bank => 3,
            Level::Row => 4,
            Level::Column => 5,
        }
    }

    fn next_level(&self) -> (r: Option<Self>) {
        Level::next_level(self)
    }

    fn channel() -> (r: Self) {
        Level::Channel
    }

    fn need_init_dram(&self) -> (r: bool) {
        match self {
            Level::Channel | Level::Rank | Level::BankGroup | Level::Bank => true,
            Level::Row | Level::Column => false,
        }
    }
}

/// The commands of DDR4.
#[derive(Debug, Clone, Copy, PartialEq, Eq, PartialOrd, Ord, Structural)]
pub enum Command {
    ACT,
    PRE,
    PREA,
    RD,
    WR,
    RDA,
    WRA,
    REF,
    PDE,
    PDX,
    SRE,
    SRX,
}

impl CommandTrait for Command {
    const MAX: usize = 12;

    open spec fn index(&self) -> nat {
        match self {
            Command::ACT => 0,
            Command::PRE => 1,
            Command::PREA => 2,
            Command::RD => 3,
            Command::WR => 4,
            Command::RDA => 5,
            Command::WRA => 6,
            Command::REF => 7,
            Command::PDE => 8,
            Command::PDX => 9,
            Command::SRE => 10,
            Command::SRX => 11,
        }
    }

    open spec fn at(i: nat) -> Self {
        if i == 0 {
            Command::ACT
        } else if i == 1 {
            Command::PRE
        } else if i == 2 {
            Command::PREA
        } else if i == 3 {
            Command::RD
        } else if i == 4 {
            Command::WR
        } else if i == 5 {
            Command::RDA
        } else if i == 6 {
            Command::WRA
        } else if i == 7 {
            Command::REF
        } else if i == 8 {
            Command::PDE
        } else if i == 9 {
            Command::PDX
        } else if i == 10 {
            Command::SRE
        } else {
            Command::SRX
        }
    }

    open spec fn activates(&self) -> bool {
        *self == Command::ACT
    }

    proof fn lemma_command(&self) {
    }

    proof fn lemma_command_at(i: nat) {
    }

    fn try_from_u8(val: u8) -> (r: Result<Self, ()>) {
        match val {
            0 => Ok(Command::ACT),
            1 => Ok(Command::PRE),
            2 => Ok(Command::PREA),
            3 => Ok(Command::RD),
            4 => Ok(Command::WR),
            5 => Ok(Command::RDA),
            6 => Ok(Command::WRA),
            7 => Ok(Command::REF),
            8 => Ok(Command::PDE),
            9 => Ok(Command::PDX),
            10 => Ok(Command::SRE),
            11 => Ok(Command::SRX),
            _ => Err(()),
        }
    }

    fn to_u8(self) -> (r: u8) {
        match self {
            Command::ACT => 0,
            Command::PRE => 1,
            Command::PREA => 2,
            Command::RD => 3,
            Command::WR => 4,
            Command::RDA => 5,
            Command::WRA => 6,
            Command::REF => 7,
            Command::PDE => 8,
            Command::PDX => 9,
            Command::SRE => 10,
            Command::SRX => 11,
        }
    }

    fn to_usize(self) -> (r: usize) {
        let val: u8 = self.to_u8();
        val as usize
    }

    fn try_from_usize(val: usize) -> (r: Result<Self, ()>) {
        Self::try_from_u8(#[verifier::truncate] (val as u8))
    }

    fn is_act(&self) -> (r: bool) {
        *self == Command::ACT
    }
}

/// DDR4 has six levels and twelve commands.
pub proof fn lemma_counts()
    ensures
        Level::MAX_LEVEL == 6,
        Command::MAX == 12,
{
}

/// The organisations of a DDR4 device: its density and its width.
#[allow(non_camel_case_types)]
#[derive(Debug, Clone, Copy, PartialEq, Eq, Structural)]
pub enum DDR4Org {
    DDR4_2Gb_x4,
    DDR4_2Gb_x8,
    DDR4_2Gb_x16,
    DDR4_4Gb_x4,
    DDR4_4Gb_x8,
    DDR4_4Gb_x16,
    DDR4_8Gb_x4,
    DDR4_8Gb_x8,
    DDR4_8Gb_x16,
    MAX,
}

/// The speed bins of DDR4.
#[allow(non_camel_case_types)]
#[derive(Debug, Clone, Copy, PartialEq, Eq, Structural)]
pub enum Speed {
    DDR4_1600K,
    DDR4_1600L,
    DDR4_1866M,
    DDR4_1866N,
    DDR4_2133P,
    DDR4_2133R,
    DDR4_2400R,
    DDR4_2400U,
    DDR4_3200,
}

/// The timing parameters of a speed bin: `rate` in megatransfers per second,
/// all others in cycles.
#[allow(non_snake_case)]
#[derive(Debug, Clone, Copy, PartialEq, Eq, Structural)]
pub struct SpeedEntry {
    pub rate: u64,
    pub nBL: u64,
    pub nCCDS: u64,
    pub nCCDL: u64,
    pub nRTRS: u64,
    pub nCL: u64,
    pub nRCD: u64,
    pub nRP: u64,
    pub nCWL: u64,
    pub nRAS: u64,
    pub nRC: u64,
    pub nRTP: u64,
    pub nWTRS: u64,
    pub nWTRL: u64,
    pub nWR: u64,
    pub nRRDS: u64,
    pub nRRDL: u64,
    pub nFAW: u64,
    pub nRFC: u64,
    pub nREFI: u64,
    pub nPD: u64,
    pub nXP: u64,
    pub nXPDLL: u64,
    pub nCKESR: u64,
    pub nXS: u64,
    pub nXSDLL: u64,
}

/// The largest value of a timing parameter that the timing table is built
/// for.
pub const PARAMETER_LIMIT: u64 = 0x0fff_ffff;

/// The bound on every delay of the timing table and on the read latency.
pub const DELAY_LIMIT: u64 = 0xffff_ffff;

impl SpeedEntry {
    /// Every parameter is within the limit, and the turnaround delays, which
    /// are differences, are not negative.
    pub open spec fn wf(self) -> bool {
        &&& self.rate <= PARAMETER_LIMIT
        &&& self.nBL <= PARAMETER_LIMIT
        &&& self.nCCDS <= PARAMETER_LIMIT
        &&& self.nCCDL <= PARAMETER_LIMIT
        &&& self.nRTRS <= PARAMETER_LIMIT
        &&& self.nCL <= PARAMETER_LIMIT
        &&& self.nRCD <= PARAMETER_LIMIT
        &&& self.nRP <= PARAMETER_LIMIT
        &&& self.nCWL <= PARAMETER_LIMIT
        &&& self.nRAS <= PARAMETER_LIMIT
        &&& self.nRC <= PARAMETER_LIMIT
        &&& self.nRTP <= PARAMETER_LIMIT
        &&& self.nWTRS <= PARAMETER_LIMIT
        &&& self.nWTRL <= PARAMETER_LIMIT
        &&& self.nWR <= PARAMETER_LIMIT
        &&& self.nRRDS <= PARAMETER_LIMIT
        &&& self.nRRDL <= PARAMETER_LIMIT
        &&& self.nFAW <= PARAMETER_LIMIT
        &&& self.nRFC <= PARAMETER_LIMIT
        &&& self.nREFI <= PARAMETER_LIMIT
        &&& self.nPD <= PARAMETER_LIMIT
        &&& self.nXP <= PARAMETER_LIMIT
        &&& self.nXPDLL <= PARAMETER_LIMIT
        &&& self.nCKESR <= PARAMETER_LIMIT
        &&& self.nXS <= PARAMETER_LIMIT
        &&& self.nXSDLL <= PARAMETER_LIMIT
        &&& self.nCL + self.nBL + 2 >= self.nCWL
        &&& self.nCL + self.nBL + self.nRTRS >= self.nCWL
        &&& self.nCWL + self.nBL + self.nRTRS >= self.nCL
    }
}

/// The DDR4 device as configured: the size and the width of every level, the
/// timing table and the read latency.
pub struct DDR4 {
    addr_size: Vec<usize>,
    addr_bits: Vec<usize>,
    timing: Vec<Vec<Vec<TimeEntry<Command>>>>,
    read_latency: u64,
}

/// The number of times that `x` can be halved before it is 1 or less: the
/// logarithm to base two, rounded down.
pub open spec fn log2_floor(x: nat) -> nat
    decreases x,
{
    if x <= 1 {
        0
    } else {
        1 + log2_floor(x / 2)
    }
}

/// The logarithm grows more slowly than its argument.
pub proof fn lemma_log2_floor_bound(x: nat)
    ensures
        log2_floor(x) <= x,
        x >= 1 ==> vstd::arithmetic::power2::pow2(log2_floor(x)) <= x,
    decreases x,
{
    vstd::arithmetic::power2::lemma2_to64();
    if x > 1 {
        lemma_log2_floor_bound(x / 2);
        vstd::arithmetic::power2::lemma_pow2_unfold(log2_floor(x));
    }
}

/// The logarithm of a machine word is less than the width of a word.
pub proof fn lemma_log2_floor_word(x: usize)
    ensures
        log2_floor(x as nat) < 64,
{
    lemma_log2_floor_bound(x as nat);
    vstd::arithmetic::power2::lemma2_to64();
    vstd::arithmetic::power2::lemma2_to64_rest();
    if log2_floor(x as nat) > 64 {
        vstd::arithmetic::power2::lemma_pow2_strictly_increases(64, log2_floor(x as nat));
    }
}

fn log2(x: usize) -> (r: usize)
    ensures
        r == log2_floor(x as nat),
{
    let mut x = x;
    let mut i: usize = 0;
    let ghost start = x;
    while x > 1
        invariant
            i + log2_floor(x as nat) == log2_floor(start as nat),
        decreases x,
    {
        proof {
            lemma_log2_floor_bound(start as nat);
        }
        assert(x >> 1 == x / 2) by (bit_vector);
        x = x >> 1;
        i += 1;
    }
    i
}

/// An entry that delays `cmd` at the node itself, counted from the issue
/// that lies `dist` back.
pub open spec fn delay(cmd: Command, dist: usize, val: u64) -> TimeEntry<Command> {
    TimeEntry { cmd, dist, val, sibling: false }
}

/// An entry that delays `cmd` at the siblings of the node.
pub open spec fn sibling_delay(cmd: Command, val: u64) -> TimeEntry<Command> {
    TimeEntry { cmd, dist: 1, val, sibling: true }
}

/// A table for one level with a list for every command, all of them empty.
pub open spec fn no_rules(t: Seq<Vec<TimeEntry<Command>>>) -> bool {
    &&& t.len() == Command::MAX
    &&& forall|c: int| 0 <= c < t.len() ==> (#[trigger] t[c])@.len() == 0
}

/// A table for one level with a list for every command: the one that
/// `rules` gives for it.
pub open spec fn holds_rules(
    t: Seq<Vec<TimeEntry<Command>>>,
    rules: spec_fn(Command) -> Seq<TimeEntry<Command>>,
) -> bool {
    &&& t.len() == Command::MAX
    &&& forall|cmd: Command| (#[trigger] t[cmd.index() as int])@ == rules(cmd)
}

/// Adds to the list of `src` the entry that delays `cmd`.
fn rule(
    t: &mut Vec<Vec<TimeEntry<Command>>>,
    src: Command,
    cmd: Command,
    dist: usize,
    val: u64,
    sibling: bool,
)
    requires
        old(t)@.len() == Command::MAX,
    ensures
        final(t)@.len() == Command::MAX,
        final(t)@[src.index() as int]@ == old(t)@[src.index() as int]@.push(
            TimeEntry { cmd, dist, val, sibling },
        ),
        forall|c: int|
            0 <= c < Command::MAX && c != src.index() ==> #[trigger] final(t)@[c] == old(t)@[c],
{
    t[src.to_usize()].push(TimeEntry { cmd, dist, val, sibling });
}

impl DDR4 {
    /// The timing parameters of the speed bins.
    pub open spec fn speed_entry(speed: Speed) -> SpeedEntry {
        match speed {
            Speed::DDR4_1600K => SpeedEntry {
                rate: 1600,
                nBL: 4,
                nCCDS: 4,
                nCCDL: 5,
                nRTRS: 2,
                nCL: 11,
                nRCD: 11,
                nRP: 11,
                nCWL: 9,
                nRAS: 28,
                nRC: 39,
                nRTP: 6,
                nWTRS: 2,
                nWTRL: 6,
                nWR: 12,
                nRRDS: 0,
                nRRDL: 0,
                nFAW: 0,
                nRFC: 0,
                nREFI: 0,
                nPD: 4,
                nXP: 5,
                nXPDLL: 0,
                nCKESR: 5,
                nXS: 0,
                nXSDLL: 0,
            },
            Speed::DDR4_1600L => SpeedEntry {
                rate: 1600,
                nBL: 4,
                nCCDS: 4,
                nCCDL: 5,
                nRTRS: 2,
                nCL: 12,
                nRCD: 12,
                nRP: 12,
                nCWL: 9,
                nRAS: 28,
                nRC: 40,
                nRTP: 6,
                nWTRS: 2,
                nWTRL: 6,
                nWR: 12,
                nRRDS: 0,
                nRRDL: 0,
                nFAW: 0,
                nRFC: 0,
                nREFI: 0,
                nPD: 4,
                nXP: 5,
                nXPDLL: 0,
                nCKESR: 5,
                nXS: 0,
                nXSDLL: 0,
            },
            Speed::DDR4_1866M => SpeedEntry {
                rate: 1866,
                nBL: 4,
                nCCDS: 4,
                nCCDL: 5,
                nRTRS: 2,
                nCL: 13,
                nRCD: 13,
                nRP: 13,
                nCWL: 10,
                nRAS: 32,
                nRC: 45,
                nRTP: 7,
                nWTRS: 3,
                nWTRL: 7,
                nWR: 14,
                nRRDS: 0,
                nRRDL: 0,
                nFAW: 0,
                nRFC: 0,
                nREFI: 0,
                nPD: 5,
                nXP: 6,
                nXPDLL: 0,
                nCKESR: 6,
                nXS: 0,
                nXSDLL: 0,
            },
            Speed::DDR4_1866N => SpeedEntry {
                rate: 1866,
                nBL: 4,
                nCCDS: 4,
                nCCDL: 5,
                nRTRS: 2,
                nCL: 14,
                nRCD: 14,
                nRP: 14,
                nCWL: 10,
                nRAS: 32,
                nRC: 46,
                nRTP: 7,
                nWTRS: 3,
                nWTRL: 7,
                nWR: 14,
                nRRDS: 0,
                nRRDL: 0,
                nFAW: 0,
                nRFC: 0,
                nREFI: 0,
                nPD: 5,
                nXP: 6,
                nXPDLL: 0,
                nCKESR: 6,
                nXS: 0,
                nXSDLL: 0,
            },
            Speed::DDR4_2133P => SpeedEntry {
                rate: 2133,
                nBL: 4,
                nCCDS: 4,
                nCCDL: 6,
                nRTRS: 2,
                nCL: 15,
                nRCD: 15,
                nRP: 15,
                nCWL: 11,
                nRAS: 36,
                nRC: 51,
                nRTP: 8,
                nWTRS: 3,
                nWTRL: 8,
                nWR: 16,
                nRRDS: 0,
                nRRDL: 0,
                nFAW: 0,
                nRFC: 0,
                nREFI: 0,
                nPD: 6,
                nXP: 7,
                nXPDLL: 0,
                nCKESR: 7,
                nXS: 0,
                nXSDLL: 0,
            },
            Speed::DDR4_2133R => SpeedEntry {
                rate: 2133,
                nBL: 4,
                nCCDS: 4,
                nCCDL: 6,
                nRTRS: 2,
                nCL: 16,
                nRCD: 16,
                nRP: 16,
                nCWL: 11,
                nRAS: 36,
                nRC: 52,
                nRTP: 8,
                nWTRS: 3,
                nWTRL: 8,
                nWR: 16,
                nRRDS: 0,
                nRRDL: 0,
                nFAW: 0,
                nRFC: 0,
                nREFI: 0,
                nPD: 6,
                nXP: 7,
                nXPDLL: 0,
                nCKESR: 7,
                nXS: 0,
                nXSDLL: 0,
            },
            Speed::DDR4_2400R => SpeedEntry {
                rate: 2400,
                nBL: 4,
                nCCDS: 4,
                nCCDL: 6,
                nRTRS: 2,
                nCL: 16,
                nRCD: 16,
                nRP: 16,
                nCWL: 12,
                nRAS: 39,
                nRC: 55,
                nRTP: 9,
                nWTRS: 3,
                nWTRL: 9,
                nWR: 18,
                nRRDS: 0,
                nRRDL: 0,
                nFAW: 0,
                nRFC: 0,
                nREFI: 0,
                nPD: 6,
                nXP: 8,
                nXPDLL: 0,
                nCKESR: 7,
                nXS: 0,
                nXSDLL: 0,
            },
            Speed::DDR4_2400U => SpeedEntry {
                rate: 2400,
                nBL: 4,
                nCCDS: 4,
                nCCDL: 6,
                nRTRS: 2,
                nCL: 18,
                nRCD: 18,
                nRP: 18,
                nCWL: 12,
                nRAS: 39,
                nRC: 57,
                nRTP: 9,
                nWTRS: 3,
                nWTRL: 9,
                nWR: 18,
                nRRDS: 0,
                nRRDL: 0,
                nFAW: 0,
                nRFC: 0,
                nREFI: 0,
                nPD: 6,
                nXP: 8,
                nXPDLL: 0,
                nCKESR: 7,
                nXS: 0,
                nXSDLL: 0,
            },
            Speed::DDR4_3200 => SpeedEntry {
                rate: 3200,
                nBL: 4,
                nCCDS: 4,
                nCCDL: 10,
                nRTRS: 2,
                nCL: 22,
                nRCD: 22,
                nRP: 22,
                nCWL: 16,
                nRAS: 56,
                nRC: 78,
                nRTP: 12,
                nWTRS: 4,
                nWTRL: 12,
                nWR: 24,
                nRRDS: 8,
                nRRDL: 10,
                nFAW: 40,
                nRFC: 0,
                nREFI: 0,
                nPD: 8,
                nXP: 10,
                nXPDLL: 0,
                nCKESR: 8,
                nXS: 0,
                nXSDLL: 0,
            },
        }
    }

    /// The number of bank groups, of banks in a group, of rows in a bank and
    /// of bursts of eight columns in a row that a device of the organisation
    /// has.
    pub open spec fn device_sizes(org: DDR4Org) -> Seq<usize> {
        match org {
            DDR4Org::DDR4_2Gb_x4 => seq![4usize, 4, 0x8000, 0x80],
            DDR4Org::DDR4_2Gb_x8 => seq![4usize, 4, 0x4000, 0x80],
            DDR4Org::DDR4_2Gb_x16 => seq![2usize, 4, 0x4000, 0x80],
            DDR4Org::DDR4_4Gb_x4 => seq![4usize, 4, 0x10000, 0x80],
            DDR4Org::DDR4_4Gb_x8 => seq![4usize, 4, 0x8000, 0x80],
            DDR4Org::DDR4_4Gb_x16 => seq![2usize, 4, 0x8000, 0x80],
            DDR4Org::DDR4_8Gb_x4 => seq![4usize, 4, 0x20000, 0x80],
            DDR4Org::DDR4_8Gb_x8 => seq![4usize, 4, 0x10000, 0x80],
            DDR4Org::DDR4_8Gb_x16 => seq![2usize, 4, 0x10000, 0x80],
            DDR4Org::MAX => Seq::empty(),
        }
    }

    /// The size of every level, from the channel down to the column.
    pub open spec fn sizes(config: Config) -> Seq<usize> {
        seq![config.channels, config.ranks] + Self::device_sizes(config.ddr4_org)
    }

    /// The delays that issuing `cmd` imposes at the channel: commands that use the data bus keep it for a burst.
    pub open spec fn channel_rules(s: SpeedEntry, cmd: Command) -> Seq<TimeEntry<Command>> {
        match cmd {
            Command::RD => seq![
                delay(Command::RD, 1, s.nBL),
                delay(Command::RDA, 1, s.nBL),
            ],
            Command::WR => seq![
                delay(Command::WR, 1, s.nBL),
                delay(Command::WRA, 1, s.nBL),
            ],
            Command::RDA => seq![
                delay(Command::RD, 1, s.nBL),
                delay(Command::RDA, 1, s.nBL),
            ],
            Command::WRA => seq![
                delay(Command::WR, 1, s.nBL),
                delay(Command::WRA, 1, s.nBL),
            ],
            _ => Seq::empty(),
        }
    }

    /// The delays that issuing `cmd` imposes at a rank.
    pub open spec fn rank_rules(s: SpeedEntry, cmd: Command) -> Seq<TimeEntry<Command>> {
        match cmd {
            Command::ACT => seq![
                delay(Command::ACT, 1, s.nRRDS),
                delay(Command::ACT, 4, s.nFAW),
                delay(Command::PREA, 1, s.nRAS),
                delay(Command::REF, 1, s.nRC),
                delay(Command::PDE, 1, 1),
            ],
            Command::PRE => seq![
                delay(Command::REF, 1, s.nRP),
                delay(Command::SRE, 1, s.nRP),
            ],
            Command::PREA => seq![
                delay(Command::ACT, 1, s.nRP),
                delay(Command::REF, 1, s.nRP),
                delay(Command::SRE, 1, s.nRP),
            ],
            Command::RD => seq![
                delay(Command::RD, 1, s.nCCDS),
                delay(Command::RDA, 1, s.nCCDS),
                delay(Command::WR, 1, (s.nCL + s.nBL + 2 - s.nCWL) as u64),
                delay(Command::WRA, 1, (s.nCL + s.nBL + 2 - s.nCWL) as u64),
                sibling_delay(Command::RD, (s.nBL + s.nRTRS) as u64),
                sibling_delay(Command::RDA, (s.nBL + s.nRTRS) as u64),
                sibling_delay(Command::WR, (s.nBL + s.nRTRS) as u64),
                sibling_delay(Command::WRA, (s.nBL + s.nRTRS) as u64),
                sibling_delay(Command::WR, (s.nCL + s.nBL + s.nRTRS - s.nCWL) as u64),
                sibling_delay(Command::WRA, (s.nCL + s.nBL + s.nRTRS - s.nCWL) as u64),
                delay(Command::PREA, 1, s.nRTP),
                delay(Command::PDE, 1, (s.nCL + s.nBL + 1) as u64),
            ],
            Command::WR => seq![
                delay(Command::WR, 1, s.nCCDS),
                delay(Command::WRA, 1, s.nCCDS),
                delay(Command::RD, 1, (s.nCWL + s.nBL + s.nWTRS) as u64),
                delay(Command::RDA, 1, (s.nCWL + s.nBL + s.nWTRS) as u64),
                sibling_delay(Command::RD, (s.nCWL + s.nBL + s.nRTRS - s.nCL) as u64),
                sibling_delay(Command::RDA, (s.nCWL + s.nBL + s.nRTRS - s.nCL) as u64),
                delay(Command::PREA, 1, (s.nCWL + s.nBL + s.nWR) as u64),
                delay(Command::PDE, 1, (s.nCWL + s.nBL + s.nWR) as u64),
            ],
            Command::RDA => seq![
                delay(Command::RD, 1, s.nCCDS),
                delay(Command::RDA, 1, s.nCCDS),
                delay(Command::WR, 1, (s.nCL + s.nBL + 2 - s.nCWL) as u64),
                delay(Command::WRA, 1, (s.nCL + s.nBL + 2 - s.nCWL) as u64),
                sibling_delay(Command::RD, (s.nBL + s.nRTRS) as u64),
                sibling_delay(Command::RDA, (s.nBL + s.nRTRS) as u64),
                sibling_delay(Command::WR, (s.nBL + s.nRTRS) as u64),
                sibling_delay(Command::WRA, (s.nBL + s.nRTRS) as u64),
                sibling_delay(Command::WR, (s.nCL + s.nBL + s.nRTRS - s.nCWL) as u64),
                sibling_delay(Command::WRA, (s.nCL + s.nBL + s.nRTRS - s.nCWL) as u64),
                delay(Command::PDE, 1, (s.nCL + s.nBL + 1) as u64),
                delay(Command::REF, 1, (s.nRTP + s.nRP) as u64),
            ],
            Command::WRA => seq![
                delay(Command::WR, 1, s.nCCDS),
                delay(Command::WRA, 1, s.nCCDS),
                delay(Command::RD, 1, (s.nCWL + s.nBL + s.nWTRS) as u64),
                delay(Command::RDA, 1, (s.nCWL + s.nBL + s.nWTRS) as u64),
                sibling_delay(Command::RD, (s.nCWL + s.nBL + s.nRTRS - s.nCL) as u64),
                sibling_delay(Command::RDA, (s.nCWL + s.nBL + s.nRTRS - s.nCL) as u64),
                delay(Command::PDE, 1, (s.nCWL + s.nBL + s.nWR + 1) as u64),
                delay(Command::REF, 1, (s.nCWL + s.nBL + s.nWR + s.nRP) as u64),
            ],
            Command::REF => seq![
                delay(Command::ACT, 1, s.nRFC),
                delay(Command::REF, 1, s.nRFC),
                delay(Command::PDE, 1, 1),
            ],
            Command::PDE => seq![
                delay(Command::PDX, 1, s.nPD),
            ],
            Command::PDX => seq![
                delay(Command::RD, 1, s.nXP),
                delay(Command::RDA, 1, s.nXP),
                delay(Command::WR, 1, s.nXP),
                delay(Command::WRA, 1, s.nXP),
                delay(Command::ACT, 1, s.nXP),
                delay(Command::PRE, 1, s.nXP),
                delay(Command::PREA, 1, s.nXP),
                delay(Command::REF, 1, s.nXP),
                delay(Command::PDE, 1, s.nXP),
                delay(Command::SRE, 1, s.nXP),
            ],
            Command::SRE => seq![
                delay(Command::SRX, 1, s.nCKESR),
            ],
            Command::SRX => seq![
                delay(Command::ACT, 1, s.nXS),
                delay(Command::REF, 1, s.nXS),
                delay(Command::PDE, 1, s.nXS),
                delay(Command::SRE, 1, s.nXS),
            ],
        }
    }

    /// The delays that issuing `cmd` imposes at a bank group.
    pub open spec fn bank_group_rules(s: SpeedEntry, cmd: Command) -> Seq<TimeEntry<Command>> {
        match cmd {
            Command::ACT => seq![
                delay(Command::ACT, 1, s.nRRDL),
            ],
            Command::RD => seq![
                delay(Command::RD, 1, s.nCCDL),
                delay(Command::RDA, 1, s.nCCDL),
            ],
            Command::WR => seq![
                delay(Command::WR, 1, s.nCCDL),
                delay(Command::WRA, 1, s.nCCDL),
                delay(Command::RD, 1, (s.nCWL + s.nBL + s.nWTRL) as u64),
                delay(Command::RDA, 1, (s.nCWL + s.nBL + s.nWTRL) as u64),
            ],
            Command::RDA => seq![
                delay(Command::RD, 1, s.nCCDL),
                delay(Command::RDA, 1, s.nCCDL),
            ],
            Command::WRA => seq![
                delay(Command::WR, 1, s.nCCDL),
                delay(Command::WRA, 1, s.nCCDL),
                delay(Command::RD, 1, (s.nCWL + s.nBL + s.nWTRL) as u64),
                delay(Command::RDA, 1, (s.nCWL + s.nBL + s.nWTRL) as u64),
            ],
            _ => Seq::empty(),
        }
    }

    /// The delays that issuing `cmd` imposes at a bank.
    pub open spec fn bank_rules(s: SpeedEntry, cmd: Command) -> Seq<TimeEntry<Command>> {
        match cmd {
            Command::ACT => seq![
                delay(Command::RD, 1, s.nRCD),
                delay(Command::RDA, 1, s.nRCD),
                delay(Command::WR, 1, s.nRCD),
                delay(Command::WRA, 1, s.nRCD),
                delay(Command::ACT, 1, s.nRC),
                delay(Command::PRE, 1, s.nRAS),
            ],
            Command::PRE => seq![
                delay(Command::ACT, 1, s.nRP),
            ],
            Command::RD => seq![
                delay(Command::PRE, 1, s.nRTP),
            ],
            Command::WR => seq![
                delay(Command::PRE, 1, (s.nCWL + s.nBL + s.nWR) as u64),
            ],
            Command::RDA => seq![
                delay(Command::ACT, 1, (s.nRTP + s.nRP) as u64),
            ],
            Command::WRA => seq![
                delay(Command::ACT, 1, (s.nCWL + s.nBL + s.nWR + s.nRP) as u64),
            ],
            _ => Seq::empty(),
        }
    }

    /// The timing table: the delays that issuing `cmd` at a node of `level`
    /// imposes, for the timing parameters `s`.
    pub open spec fn timing_rules(s: SpeedEntry, level: Level, cmd: Command) -> Seq<
        TimeEntry<Command>,
    > {
        match level {
            Level::Channel => Self::channel_rules(s, cmd),
            Level::Rank => Self::rank_rules(s, cmd),
            Level::BankGroup => Self::bank_group_rules(s, cmd),
            Level::Bank => Self::bank_rules(s, cmd),
            Level::Row => Seq::empty(),
            Level::Column => Seq::empty(),
        }
    }

    /// Every entry of the timing table is well formed and within the limit.
    pub proof fn lemma_timing_rules(s: SpeedEntry, level: Level, cmd: Command, i: int)
        requires
            s.wf(),
            0 <= i < Self::timing_rules(s, level, cmd).len(),
        ensures
            crate::model::entry_ok(Self::timing_rules(s, level, cmd)[i]),
            Self::timing_rules(s, level, cmd)[i].val <= DELAY_LIMIT,
    {
    }

    /// The device that `config` describes.
    pub fn new(config: &Config) -> (r: Self)
        requires
            config.ddr4_org != DDR4Org::MAX,
        ensures
            r.wf(),
            r.addr_size() == Self::sizes(*config),
            forall|l: int| 0 <= l < 6 ==> #[trigger] r.addr_bits()[l] == log2_floor(
                Self::sizes(*config)[l] as nat,
            ),
            forall|level: Level, cmd: Command| #[trigger]
                r.timing(level, cmd) == Self::timing_rules(
                    Self::speed_entry(config.ddr4_speed),
                    level,
                    cmd,
                ),
            r.read_latency() == Self::speed_entry(config.ddr4_speed).nCL + Self::speed_entry(
                config.ddr4_speed,
            ).nBL,
    {
        let channels = config.channels;
        let ranks = config.ranks;
        let mut addr_size: Vec<usize> = Vec::new();
        addr_size.push(channels);
        addr_size.push(ranks);
        match config.ddr4_org {
            DDR4Org::DDR4_2Gb_x4 => {
                addr_size.push(4);
                addr_size.push(4);
                addr_size.push(0x8000);
            },
            DDR4Org::DDR4_2Gb_x8 => {
                addr_size.push(4);
                addr_size.push(4);
                addr_size.push(0x4000);
            },
            DDR4Org::DDR4_2Gb_x16 => {
                addr_size.push(2);
                addr_size.push(4);
                addr_size.push(0x4000);
            },
            DDR4Org::DDR4_4Gb_x4 => {
                addr_size.push(4);
                addr_size.push(4);
                addr_size.push(0x10000);
            },
            DDR4Org::DDR4_4Gb_x8 => {
                addr_size.push(4);
                addr_size.push(4);
                addr_size.push(0x8000);
            },
            DDR4Org::DDR4_4Gb_x16 => {
                addr_size.push(2);
                addr_size.push(4);
                addr_size.push(0x8000);
            },
            DDR4Org::DDR4_8Gb_x4 => {
                addr_size.push(4);
                addr_size.push(4);
                addr_size.push(0x20000);
            },
            DDR4Org::DDR4_8Gb_x8 => {
                addr_size.push(4);
                addr_size.push(4);
                addr_size.push(0x10000);
            },
            DDR4Org::DDR4_8Gb_x16 => {
                addr_size.push(2);
                addr_size.push(4);
                addr_size.push(0x10000);
            },
            DDR4Org::MAX => {},
        }
        // the column counts bursts of eight
        addr_size.push(0x80);
        assert(addr_size@ =~= Self::sizes(*config));
        let mut addr_bits: Vec<usize> = Vec::new();
        let mut i: usize = 0;
        while i < addr_size.len()
            invariant
                i <= addr_size.len(),
                addr_bits@.len() == i,
                forall|l: int|
                    0 <= l < i ==> #[trigger] addr_bits@[l] == log2_floor(addr_size@[l] as nat),
            decreases addr_size.len() - i,
        {
            addr_bits.push(log2(addr_size[i]));
            i += 1;
        }
        let speed_entry = Self::get_speed(&config.ddr4_speed);
        let mut timing: Vec<Vec<Vec<TimeEntry<Command>>>> = Vec::new();
        let mut l: usize = 0;
        while l < Level::MAX_LEVEL
            invariant
                l <= Level::MAX_LEVEL,
                timing@.len() == l,
                forall|k: int| 0 <= k < l ==> no_rules((#[trigger] timing@[k])@),
            decreases Level::MAX_LEVEL - l,
        {
            let mut lists: Vec<Vec<TimeEntry<Command>>> = Vec::new();
            let mut c: usize = 0;
            while c < Command::MAX
                invariant
                    c <= Command::MAX,
                    lists@.len() == c,
                    forall|k: int| 0 <= k < c ==> (#[trigger] lists@[k])@.len() == 0,
                decreases Command::MAX - c,
            {
                lists.push(Vec::new());
                c += 1;
            }
            timing.push(lists);
            l += 1;
        }
        Self::init_timing(&mut timing, &speed_entry);
        let read_latency = speed_entry.nCL + speed_entry.nBL;
        let r = Self { addr_size, addr_bits, timing, read_latency };
        proof {
            assert(holds_rules(r.timing@[Level::Channel.index() as int]@, |cmd: Command| Self::timing_rules(speed_entry, Level::Channel, cmd)));
            assert(holds_rules(r.timing@[Level::Rank.index() as int]@, |cmd: Command| Self::timing_rules(speed_entry, Level::Rank, cmd)));
            assert(holds_rules(r.timing@[Level::BankGroup.index() as int]@, |cmd: Command| Self::timing_rules(speed_entry, Level::BankGroup, cmd)));
            assert(holds_rules(r.timing@[Level::Bank.index() as int]@, |cmd: Command| Self::timing_rules(speed_entry, Level::Bank, cmd)));
            assert(holds_rules(r.timing@[Level::Row.index() as int]@, |cmd: Command| Self::timing_rules(speed_entry, Level::Row, cmd)));
            assert(holds_rules(r.timing@[Level::Column.index() as int]@, |cmd: Command| Self::timing_rules(speed_entry, Level::Column, cmd)));
            assert(forall|l: int| 0 <= l < Level::MAX_LEVEL ==> (#[trigger] r.timing@[l])@.len() == Command::MAX);
            assert forall|level: Level, cmd: Command| #[trigger]
                r.timing(level, cmd) == Self::timing_rules(speed_entry, level, cmd) by {
                assert(holds_rules(
                    r.timing@[level.index() as int]@,
                    |cmd: Command| Self::timing_rules(speed_entry, level, cmd),
                ));
            }
            assert forall|level: Level, cmd: Command, i: int|
                0 <= i < r.timing(level, cmd).len() implies crate::model::entry_ok(
                #[trigger] r.timing(level, cmd)[i],
            ) && r.timing(level, cmd)[i].val <= DELAY_LIMIT by {
                Self::lemma_timing_rules(speed_entry, level, cmd, i);
            }
        }
        r
    }

    /// The address of the coordinates when the channel takes the most
    /// significant slice and every level below it the next: each coordinate
    /// is one digit of the address, and the width of its level gives the
    /// base. The address counts bytes, 64 to the innermost coordinate.
    pub open spec fn joined(addr_vec: Seq<u64>, bits: Seq<usize>, levels: nat) -> nat
        decreases levels,
    {
        if levels == 0 {
            0
        } else {
            let level = (levels - 1) as nat;
            Self::joined(addr_vec, bits, level) * vstd::arithmetic::power2::pow2(
                bits[level as int] as nat,
            ) + addr_vec[level as int] as nat
        }
    }

    /// The sum of the widths of the first `levels` levels.
    pub open spec fn width(bits: Seq<usize>, levels: nat) -> nat
        decreases levels,
    {
        if levels == 0 {
            0
        } else {
            Self::width(bits, (levels - 1) as nat) + bits[levels - 1] as nat
        }
    }

    /// Coordinates that fit their widths join to an address that fits the
    /// sum of the widths.
    pub proof fn lemma_joined_fits(addr_vec: Seq<u64>, bits: Seq<usize>, levels: nat)
        requires
            levels <= addr_vec.len(),
            forall|l: int|
                0 <= l < levels ==> (#[trigger] addr_vec[l] as nat)
                    < vstd::arithmetic::power2::pow2(bits[l] as nat),
        ensures
            Self::joined(addr_vec, bits, levels) < vstd::arithmetic::power2::pow2(
                Self::width(bits, levels),
            ),
        decreases levels,
    {
        vstd::arithmetic::power2::lemma2_to64();
        if levels > 0 {
            let level = (levels - 1) as nat;
            Self::lemma_joined_fits(addr_vec, bits, level);
            let high = Self::joined(addr_vec, bits, level);
            let base = vstd::arithmetic::power2::pow2(bits[level as int] as nat);
            let range = vstd::arithmetic::power2::pow2(Self::width(bits, level));
            vstd::arithmetic::power2::lemma_pow2_adds(
                Self::width(bits, level),
                bits[level as int] as nat,
            );
            assert((addr_vec[level as int] as nat) < base);
            assert(high * base + (addr_vec[level as int] as nat) < range * base) by (nonlinear_arith)
                requires
                    high < range,
                    (addr_vec[level as int] as nat) < base,
            ;
        }
    }

    /// The byte address of the coordinates, with the channel in the most
    /// significant slice.
    pub fn addr_from_addr_vec(&self, addr_vec: &[u64]) -> (addr: u64)
        requires
            self.wf(),
            addr_vec@.len() == self.addr_bits().len(),
            forall|l: int|
                0 <= l < addr_vec@.len() ==> (#[trigger] addr_vec@[l] as nat)
                    < vstd::arithmetic::power2::pow2(self.addr_bits()[l] as nat),
            Self::width(self.addr_bits(), addr_vec@.len()) + 6 <= 64,
        ensures
            addr == Self::joined(addr_vec@, self.addr_bits(), addr_vec@.len()) * 64,
    {
        let mut addr: u64 = 0;
        let ghost bits = self.addr_bits();
        let n = addr_vec.len();
        proof {
            self.lemma_bits_fit_word();
        }
        for i in 0..n
            invariant
                n == addr_vec@.len(),
                n == self.addr_bits@.len(),
                bits == self.addr_bits@,
                addr == Self::joined(addr_vec@, bits, i as nat),
                forall|l: int| 0 <= l < n ==> (#[trigger] bits[l]) < 64,
                forall|l: int|
                    0 <= l < n ==> (#[trigger] addr_vec@[l] as nat)
                        < vstd::arithmetic::power2::pow2(bits[l] as nat),
                Self::width(bits, n as nat) + 6 <= 64,
        {
            proof {
                Self::lemma_joined_fits(addr_vec@, bits, i as nat);
                Self::lemma_joined_fits(addr_vec@, bits, (i + 1) as nat);
                Self::lemma_width_grows(bits, (i + 1) as nat, n as nat);
                vstd::arithmetic::power2::lemma_pow2_strictly_increases(
                    Self::width(bits, (i + 1) as nat),
                    64,
                );
                vstd::arithmetic::power2::lemma2_to64();
                vstd::arithmetic::power2::lemma_pow2_pos(bits[i as int] as nat);
                assert(addr * vstd::arithmetic::power2::pow2(bits[i as int] as nat) <= u64::MAX);
                vstd::bits::lemma_u64_shl_is_mul(addr, bits[i as int] as u64);
            }
            addr <<= self.addr_bits[i];
            addr += addr_vec[i];
        }
        proof {
            Self::lemma_joined_fits(addr_vec@, bits, n as nat);
            vstd::arithmetic::power2::lemma_pow2_adds(Self::width(bits, n as nat), 6);
            vstd::arithmetic::power2::lemma_pow2_strictly_increases(
                Self::width(bits, n as nat) + 6,
                65,
            );
            vstd::arithmetic::power2::lemma2_to64();
            vstd::arithmetic::power2::lemma2_to64_rest();
            assert(vstd::arithmetic::power2::pow2(65) == 2 * vstd::arithmetic::power2::pow2(64))
                by {
                vstd::arithmetic::power2::lemma_pow2_unfold(65);
            }
            assert(addr * vstd::arithmetic::power2::pow2(6) <= u64::MAX);
            vstd::bits::lemma_u64_shl_is_mul(addr, 6);
        }
        addr <<= 6;
        addr
    }

    /// The codec round trip: decoding an address that the device covers and
    /// encoding the coordinates again gives the address back, but for its
    /// six lowest bits, which are the offset in the line and come back as
    /// zero. An address is covered if it is below two to the power of six
    /// plus the widths of all levels.
    pub proof fn lemma_addr_round_trip(&self, addr: u64, mapping_type: MappingType)
        requires
            self.wf(),
            ((addr >> 6) as nat) < vstd::arithmetic::power2::pow2(
                utils::total_bits(self.addr_bits(), mapping_type.slice_sequence(true)),
            ),
        ensures
            self.encoded_addr(self.decoded_addr(addr, mapping_type), mapping_type) == addr & !0x3fu64,
            addr % 64 == 0 ==> self.encoded_addr(self.decoded_addr(addr, mapping_type), mapping_type)
                == addr,
    {
        let order = mapping_type.slice_sequence(true);
        let blank = Seq::new(Level::MAX_LEVEL as nat, |l: int| 0u64);
        let line = addr >> 6;
        self.lemma_bits_fit_word();
        utils::lemma_covered_address_leaves_no_rest(line, self.addr_bits(), order);
        utils::lemma_pack_slices_round_trip(line, self.addr_bits(), order, blank);
        assert((line << 6) == addr & !0x3fu64) by (bit_vector)
            requires
                line == addr >> 6,
        ;
        assert(addr % 64 == 0 ==> addr & !0x3fu64 == addr) by (bit_vector);
    }

    /// Decoding undoes encoding: the coordinates of the address of
    /// coordinates are those coordinates, provided that each of them fits
    /// the width of its level and that the address fits a machine word.
    pub proof fn lemma_coordinates_round_trip(&self, addr_vec: Seq<u64>, mapping_type: MappingType)
        requires
            self.wf(),
            addr_vec.len() == Level::MAX_LEVEL,
            forall|l: int|
                0 <= l < Level::MAX_LEVEL ==> (#[trigger] addr_vec[l] as nat)
                    < vstd::arithmetic::power2::pow2(self.addr_bits()[l] as nat),
            utils::total_bits(self.addr_bits(), mapping_type.slice_sequence(true)) + 6 <= 64,
        ensures
            self.decoded_addr(self.encoded_addr(addr_vec, mapping_type), mapping_type) == addr_vec,
    {
        let order = mapping_type.slice_sequence(true);
        let bits = self.addr_bits();
        let blank = Seq::new(Level::MAX_LEVEL as nat, |l: int| 0u64);
        let line = utils::packed(addr_vec, bits, order);
        let total = utils::total_bits(bits, order);
        self.lemma_bits_fit_word();
        assert(utils::coordinates_fit(addr_vec, bits, order));
        utils::lemma_packed_fits(addr_vec, bits, order);
        vstd::arithmetic::power2::lemma2_to64();
        vstd::arithmetic::power2::lemma2_to64_rest();
        if total < 58 {
            vstd::arithmetic::power2::lemma_pow2_strictly_increases(total, 58);
        }
        assert(vstd::arithmetic::power2::pow2(58) == 0x400_0000_0000_0000) by {
            vstd::arithmetic::power2::lemma_pow2_adds(32, 26);
        }
        assert((line << 6) >> 6 == line) by (bit_vector)
            requires
                line < 0x400_0000_0000_0000u64,
        ;
        let decoded = self.decoded_addr(self.encoded_addr(addr_vec, mapping_type), mapping_type);
        utils::lemma_sliced_len(line, bits, order, blank);
        assert forall|l: int| 0 <= l < Level::MAX_LEVEL implies decoded[l] == addr_vec[l] by {
            let i = if order[0] == l {
                0int
            } else if order[1] == l {
                1int
            } else if order[2] == l {
                2int
            } else if order[3] == l {
                3int
            } else if order[4] == l {
                4int
            } else {
                5int
            };
            assert(order[i] == l);
            utils::lemma_slice_packed_round_trip(addr_vec, bits, order, blank, i);
        }
        assert(decoded =~= addr_vec);
    }

    /// The coordinate of every level is narrower than a machine word.
    pub proof fn lemma_bits_fit_word(&self)
        requires
            self.wf(),
        ensures
            self.addr_bits().len() == Level::MAX_LEVEL,
            forall|l: int| 0 <= l < Level::MAX_LEVEL ==> #[trigger] self.addr_bits()[l] < 64,
    {
        assert forall|l: int| 0 <= l < Level::MAX_LEVEL implies #[trigger] self.addr_bits()[l]
            < 64 by {
            lemma_log2_floor_word(self.addr_size@[l]);
        }
    }

    /// The sum of the widths does not shrink with more levels.
    pub proof fn lemma_width_grows(bits: Seq<usize>, fewer: nat, more: nat)
        requires
            fewer <= more,
        ensures
            Self::width(bits, fewer) <= Self::width(bits, more),
        decreases more,
    {
        if fewer < more {
            Self::lemma_width_grows(bits, fewer, (more - 1) as nat);
        }
    }

    /// Fills the timing table from the timing parameters.
    fn init_timing(timing: &mut Vec<Vec<Vec<TimeEntry<Command>>>>, s: &SpeedEntry)
        requires
            s.wf(),
            old(timing)@.len() == Level::MAX_LEVEL,
            forall|l: int| 0 <= l < Level::MAX_LEVEL ==> no_rules((#[trigger] old(timing)@[l])@),
        ensures
            final(timing)@.len() == Level::MAX_LEVEL,
            forall|level: Level|
                holds_rules(
                    (#[trigger] final(timing)@[level.index() as int])@,
                    |cmd: Command| Self::timing_rules(*s, level, cmd),
                ),
    {
        Self::init_channel_timing(&mut timing[Level::Channel.to_usize()], s);
        Self::init_rank_timing(&mut timing[Level::Rank.to_usize()], s);
        Self::init_bank_group_timing(&mut timing[Level::BankGroup.to_usize()], s);
        Self::init_bank_timing(&mut timing[Level::Bank.to_usize()], s);
        proof {
            assert forall|level: Level|
                holds_rules(
                    (#[trigger] timing@[level.index() as int])@,
                    |cmd: Command| Self::timing_rules(*s, level, cmd),
                ) by {
                let t = timing@[level.index() as int]@;
                assert forall|cmd: Command| (#[trigger] t[cmd.index() as int])@
                    == Self::timing_rules(*s, level, cmd) by {
                    match level {
                        Level::Channel => {
                            assert(t[cmd.index() as int]@ == Self::channel_rules(*s, cmd));
                        },
                        Level::Rank => {
                            assert(t[cmd.index() as int]@ == Self::rank_rules(*s, cmd));
                        },
                        Level::BankGroup => {
                            assert(t[cmd.index() as int]@ == Self::bank_group_rules(*s, cmd));
                        },
                        Level::Bank => {
                            assert(t[cmd.index() as int]@ == Self::bank_rules(*s, cmd));
                        },
                        Level::Row => {
                            assert(t[cmd.index() as int]@ =~= Seq::empty());
                        },
                        Level::Column => {
                            assert(t[cmd.index() as int]@ =~= Seq::empty());
                        },
                    }
                }
            }
        }
    }

    /// Fills the timing table of the channel: commands that use the data bus keep it for a burst, rule by rule.
    fn init_channel_timing(t: &mut Vec<Vec<TimeEntry<Command>>>, s: &SpeedEntry)
        requires
            s.wf(),
            no_rules(old(t)@),
        ensures
            holds_rules(final(t)@, |cmd: Command| Self::channel_rules(*s, cmd)),
    {
        // CAS <-> CAS
        rule(t, Command::RD, Command::RD, 1, s.nBL, false);
        rule(t, Command::RD, Command::RDA, 1, s.nBL, false);
        rule(t, Command::RDA, Command::RD, 1, s.nBL, false);
        rule(t, Command::RDA, Command::RDA, 1, s.nBL, false);
        rule(t, Command::WR, Command::WR, 1, s.nBL, false);
        rule(t, Command::WR, Command::WRA, 1, s.nBL, false);
        rule(t, Command::WRA, Command::WR, 1, s.nBL, false);
        rule(t, Command::WRA, Command::WRA, 1, s.nBL, false);
        proof {
            assert(t@[0]@ =~= Self::channel_rules(*s, Command::ACT));
            assert(t@[1]@ =~= Self::channel_rules(*s, Command::PRE));
            assert(t@[2]@ =~= Self::channel_rules(*s, Command::PREA));
            assert(t@[3]@ =~= Self::channel_rules(*s, Command::RD));
            assert(t@[4]@ =~= Self::channel_rules(*s, Command::WR));
            assert(t@[5]@ =~= Self::channel_rules(*s, Command::RDA));
            assert(t@[6]@ =~= Self::channel_rules(*s, Command::WRA));
            assert(t@[7]@ =~= Self::channel_rules(*s, Command::REF));
            assert(t@[8]@ =~= Self::channel_rules(*s, Command::PDE));
            assert(t@[9]@ =~= Self::channel_rules(*s, Command::PDX));
            assert(t@[10]@ =~= Self::channel_rules(*s, Command::SRE));
            assert(t@[11]@ =~= Self::channel_rules(*s, Command::SRX));
        }
    }

    /// Fills the timing table of a rank, rule by rule.
    fn init_rank_timing(t: &mut Vec<Vec<TimeEntry<Command>>>, s: &SpeedEntry)
        requires
            s.wf(),
            no_rules(old(t)@),
        ensures
            holds_rules(final(t)@, |cmd: Command| Self::rank_rules(*s, cmd)),
    {
        // CAS <-> CAS
        rule(t, Command::RD, Command::RD, 1, s.nCCDS, false);
        rule(t, Command::RD, Command::RDA, 1, s.nCCDS, false);
        rule(t, Command::RDA, Command::RD, 1, s.nCCDS, false);
        rule(t, Command::RDA, Command::RDA, 1, s.nCCDS, false);
        rule(t, Command::WR, Command::WR, 1, s.nCCDS, false);
        rule(t, Command::WR, Command::WRA, 1, s.nCCDS, false);
        rule(t, Command::WRA, Command::WR, 1, s.nCCDS, false);
        rule(t, Command::WRA, Command::WRA, 1, s.nCCDS, false);
        rule(t, Command::RD, Command::WR, 1, s.nCL + s.nBL + 2 - s.nCWL, false);
        rule(t, Command::RD, Command::WRA, 1, s.nCL + s.nBL + 2 - s.nCWL, false);
        rule(t, Command::RDA, Command::WR, 1, s.nCL + s.nBL + 2 - s.nCWL, false);
        rule(t, Command::RDA, Command::WRA, 1, s.nCL + s.nBL + 2 - s.nCWL, false);
        rule(t, Command::WR, Command::RD, 1, s.nCWL + s.nBL + s.nWTRS, false);
        rule(t, Command::WR, Command::RDA, 1, s.nCWL + s.nBL + s.nWTRS, false);
        rule(t, Command::WRA, Command::RD, 1, s.nCWL + s.nBL + s.nWTRS, false);
        rule(t, Command::WRA, Command::RDA, 1, s.nCWL + s.nBL + s.nWTRS, false);
        // CAS <-> CAS (between sibling ranks)
        rule(t, Command::RD, Command::RD, 1, s.nBL + s.nRTRS, true);
        rule(t, Command::RD, Command::RDA, 1, s.nBL + s.nRTRS, true);
        rule(t, Command::RDA, Command::RD, 1, s.nBL + s.nRTRS, true);
        rule(t, Command::RDA, Command::RDA, 1, s.nBL + s.nRTRS, true);
        rule(t, Command::RD, Command::WR, 1, s.nBL + s.nRTRS, true);
        rule(t, Command::RD, Command::WRA, 1, s.nBL + s.nRTRS, true);
        rule(t, Command::RDA, Command::WR, 1, s.nBL + s.nRTRS, true);
        rule(t, Command::RDA, Command::WRA, 1, s.nBL + s.nRTRS, true);
        rule(t, Command::RD, Command::WR, 1, s.nCL + s.nBL + s.nRTRS - s.nCWL, true);
        rule(t, Command::RD, Command::WRA, 1, s.nCL + s.nBL + s.nRTRS - s.nCWL, true);
        rule(t, Command::RDA, Command::WR, 1, s.nCL + s.nBL + s.nRTRS - s.nCWL, true);
        rule(t, Command::RDA, Command::WRA, 1, s.nCL + s.nBL + s.nRTRS - s.nCWL, true);
        rule(t, Command::WR, Command::RD, 1, s.nCWL + s.nBL + s.nRTRS - s.nCL, true);
        rule(t, Command::WR, Command::RDA, 1, s.nCWL + s.nBL + s.nRTRS - s.nCL, true);
        rule(t, Command::WRA, Command::RD, 1, s.nCWL + s.nBL + s.nRTRS - s.nCL, true);
        rule(t, Command::WRA, Command::RDA, 1, s.nCWL + s.nBL + s.nRTRS - s.nCL, true);
        rule(t, Command::RD, Command::PREA, 1, s.nRTP, false);
        rule(t, Command::WR, Command::PREA, 1, s.nCWL + s.nBL + s.nWR, false);
        // CAS <-> PD
        rule(t, Command::RD, Command::PDE, 1, s.nCL + s.nBL + 1, false);
        rule(t, Command::RDA, Command::PDE, 1, s.nCL + s.nBL + 1, false);
        rule(t, Command::WR, Command::PDE, 1, s.nCWL + s.nBL + s.nWR, false);
        rule(t, Command::WRA, Command::PDE, 1, s.nCWL + s.nBL + s.nWR + 1, false);
        rule(t, Command::PDX, Command::RD, 1, s.nXP, false);
        rule(t, Command::PDX, Command::RDA, 1, s.nXP, false);
        rule(t, Command::PDX, Command::WR, 1, s.nXP, false);
        rule(t, Command::PDX, Command::WRA, 1, s.nXP, false);
        // CAS <-> SR: none, as all banks have to be precharged
        // RAS <-> RAS
        rule(t, Command::ACT, Command::ACT, 1, s.nRRDS, false);
        rule(t, Command::ACT, Command::ACT, 4, s.nFAW, false);
        rule(t, Command::ACT, Command::PREA, 1, s.nRAS, false);
        rule(t, Command::PREA, Command::ACT, 1, s.nRP, false);
        // RAS <-> REF
        rule(t, Command::ACT, Command::REF, 1, s.nRC, false);
        rule(t, Command::PRE, Command::REF, 1, s.nRP, false);
        rule(t, Command::PREA, Command::REF, 1, s.nRP, false);
        rule(t, Command::RDA, Command::REF, 1, s.nRTP + s.nRP, false);
        rule(t, Command::WRA, Command::REF, 1, s.nCWL + s.nBL + s.nWR + s.nRP, false);
        rule(t, Command::REF, Command::ACT, 1, s.nRFC, false);
        // RAS <-> PD
        rule(t, Command::ACT, Command::PDE, 1, 1, false);
        rule(t, Command::PDX, Command::ACT, 1, s.nXP, false);
        rule(t, Command::PDX, Command::PRE, 1, s.nXP, false);
        rule(t, Command::PDX, Command::PREA, 1, s.nXP, false);
        // RAS <-> SR
        rule(t, Command::PRE, Command::SRE, 1, s.nRP, false);
        rule(t, Command::PREA, Command::SRE, 1, s.nRP, false);
        rule(t, Command::SRX, Command::ACT, 1, s.nXS, false);
        // REF <-> REF
        rule(t, Command::REF, Command::REF, 1, s.nRFC, false);
        // REF <-> PD
        rule(t, Command::REF, Command::PDE, 1, 1, false);
        rule(t, Command::PDX, Command::REF, 1, s.nXP, false);
        // REF <-> SR
        rule(t, Command::SRX, Command::REF, 1, s.nXS, false);
        // PD <-> PD
        rule(t, Command::PDE, Command::PDX, 1, s.nPD, false);
        rule(t, Command::PDX, Command::PDE, 1, s.nXP, false);
        // PD <-> SR
        rule(t, Command::PDX, Command::SRE, 1, s.nXP, false);
        rule(t, Command::SRX, Command::PDE, 1, s.nXS, false);
        // SR <-> SR
        rule(t, Command::SRE, Command::SRX, 1, s.nCKESR, false);
        rule(t, Command::SRX, Command::SRE, 1, s.nXS, false);
        proof {
            assert(t@[0]@ =~= Self::rank_rules(*s, Command::ACT));
            assert(t@[1]@ =~= Self::rank_rules(*s, Command::PRE));
            assert(t@[2]@ =~= Self::rank_rules(*s, Command::PREA));
            assert(t@[3]@ =~= Self::rank_rules(*s, Command::RD));
            assert(t@[4]@ =~= Self::rank_rules(*s, Command::WR));
            assert(t@[5]@ =~= Self::rank_rules(*s, Command::RDA));
            assert(t@[6]@ =~= Self::rank_rules(*s, Command::WRA));
            assert(t@[7]@ =~= Self::rank_rules(*s, Command::REF));
            assert(t@[8]@ =~= Self::rank_rules(*s, Command::PDE));
            assert(t@[9]@ =~= Self::rank_rules(*s, Command::PDX));
            assert(t@[10]@ =~= Self::rank_rules(*s, Command::SRE));
            assert(t@[11]@ =~= Self::rank_rules(*s, Command::SRX));
        }
    }

    /// Fills the timing table of a bank group, rule by rule.
    fn init_bank_group_timing(t: &mut Vec<Vec<TimeEntry<Command>>>, s: &SpeedEntry)
        requires
            s.wf(),
            no_rules(old(t)@),
        ensures
            holds_rules(final(t)@, |cmd: Command| Self::bank_group_rules(*s, cmd)),
    {
        // CAS <-> CAS
        rule(t, Command::RD, Command::RD, 1, s.nCCDL, false);
        rule(t, Command::RD, Command::RDA, 1, s.nCCDL, false);
        rule(t, Command::RDA, Command::RD, 1, s.nCCDL, false);
        rule(t, Command::RDA, Command::RDA, 1, s.nCCDL, false);
        rule(t, Command::WR, Command::WR, 1, s.nCCDL, false);
        rule(t, Command::WR, Command::WRA, 1, s.nCCDL, false);
        rule(t, Command::WRA, Command::WR, 1, s.nCCDL, false);
        rule(t, Command::WRA, Command::WRA, 1, s.nCCDL, false);
        rule(t, Command::WR, Command::RD, 1, s.nCWL + s.nBL + s.nWTRL, false);
        rule(t, Command::WR, Command::RDA, 1, s.nCWL + s.nBL + s.nWTRL, false);
        rule(t, Command::WRA, Command::RD, 1, s.nCWL + s.nBL + s.nWTRL, false);
        rule(t, Command::WRA, Command::RDA, 1, s.nCWL + s.nBL + s.nWTRL, false);
        // RAS <-> RAS
        rule(t, Command::ACT, Command::ACT, 1, s.nRRDL, false);
        proof {
            assert(t@[0]@ =~= Self::bank_group_rules(*s, Command::ACT));
            assert(t@[1]@ =~= Self::bank_group_rules(*s, Command::PRE));
            assert(t@[2]@ =~= Self::bank_group_rules(*s, Command::PREA));
            assert(t@[3]@ =~= Self::bank_group_rules(*s, Command::RD));
            assert(t@[4]@ =~= Self::bank_group_rules(*s, Command::WR));
            assert(t@[5]@ =~= Self::bank_group_rules(*s, Command::RDA));
            assert(t@[6]@ =~= Self::bank_group_rules(*s, Command::WRA));
            assert(t@[7]@ =~= Self::bank_group_rules(*s, Command::REF));
            assert(t@[8]@ =~= Self::bank_group_rules(*s, Command::PDE));
            assert(t@[9]@ =~= Self::bank_group_rules(*s, Command::PDX));
            assert(t@[10]@ =~= Self::bank_group_rules(*s, Command::SRE));
            assert(t@[11]@ =~= Self::bank_group_rules(*s, Command::SRX));
        }
    }

    /// Fills the timing table of a bank, rule by rule.
    fn init_bank_timing(t: &mut Vec<Vec<TimeEntry<Command>>>, s: &SpeedEntry)
        requires
            s.wf(),
            no_rules(old(t)@),
        ensures
            holds_rules(final(t)@, |cmd: Command| Self::bank_rules(*s, cmd)),
    {
        // CAS <-> RAS
        rule(t, Command::ACT, Command::RD, 1, s.nRCD, false);
        rule(t, Command::ACT, Command::RDA, 1, s.nRCD, false);
        rule(t, Command::ACT, Command::WR, 1, s.nRCD, false);
        rule(t, Command::ACT, Command::WRA, 1, s.nRCD, false);
        rule(t, Command::RD, Command::PRE, 1, s.nRTP, false);
        rule(t, Command::WR, Command::PRE, 1, s.nCWL + s.nBL + s.nWR, false);
        rule(t, Command::RDA, Command::ACT, 1, s.nRTP + s.nRP, false);
        rule(t, Command::WRA, Command::ACT, 1, s.nCWL + s.nBL + s.nWR + s.nRP, false);
        // RAS <-> RAS
        rule(t, Command::ACT, Command::ACT, 1, s.nRC, false);
        rule(t, Command::ACT, Command::PRE, 1, s.nRAS, false);
        rule(t, Command::PRE, Command::ACT, 1, s.nRP, false);
        proof {
            assert(t@[0]@ =~= Self::bank_rules(*s, Command::ACT));
            assert(t@[1]@ =~= Self::bank_rules(*s, Command::PRE));
            assert(t@[2]@ =~= Self::bank_rules(*s, Command::PREA));
            assert(t@[3]@ =~= Self::bank_rules(*s, Command::RD));
            assert(t@[4]@ =~= Self::bank_rules(*s, Command::WR));
            assert(t@[5]@ =~= Self::bank_rules(*s, Command::RDA));
            assert(t@[6]@ =~= Self::bank_rules(*s, Command::WRA));
            assert(t@[7]@ =~= Self::bank_rules(*s, Command::REF));
            assert(t@[8]@ =~= Self::bank_rules(*s, Command::PDE));
            assert(t@[9]@ =~= Self::bank_rules(*s, Command::PDX));
            assert(t@[10]@ =~= Self::bank_rules(*s, Command::SRE));
            assert(t@[11]@ =~= Self::bank_rules(*s, Command::SRX));
        }
    }

    /// The timing parameters of a speed bin.
    pub fn get_speed(speed: &Speed) -> (r: SpeedEntry)
        ensures
            r == Self::speed_entry(*speed),
            r.wf(),
    {
        match speed {
            Speed::DDR4_1600K => SpeedEntry {
                rate: 1600,
                nBL: 4,
                nCCDS: 4,
                nCCDL: 5,
                nRTRS: 2,
                nCL: 11,
                nRCD: 11,
                nRP: 11,
                nCWL: 9,
                nRAS: 28,
                nRC: 39,
                nRTP: 6,
                nWTRS: 2,
                nWTRL: 6,
                nWR: 12,
                nRRDS: 0,
                nRRDL: 0,
                nFAW: 0,
                nRFC: 0,
                nREFI: 0,
                nPD: 4,
                nXP: 5,
                nXPDLL: 0,
                nCKESR: 5,
                nXS: 0,
                nXSDLL: 0,
            },
            Speed::DDR4_1600L => SpeedEntry {
                rate: 1600,
                nBL: 4,
                nCCDS: 4,
                nCCDL: 5,
                nRTRS: 2,
                nCL: 12,
                nRCD: 12,
                nRP: 12,
                nCWL: 9,
                nRAS: 28,
                nRC: 40,
                nRTP: 6,
                nWTRS: 2,
                nWTRL: 6,
                nWR: 12,
                nRRDS: 0,
                nRRDL: 0,
                nFAW: 0,
                nRFC: 0,
                nREFI: 0,
                nPD: 4,
                nXP: 5,
                nXPDLL: 0,
                nCKESR: 5,
                nXS: 0,
                nXSDLL: 0,
            },
            Speed::DDR4_1866M => SpeedEntry {
                rate: 1866,
                nBL: 4,
                nCCDS: 4,
                nCCDL: 5,
                nRTRS: 2,
                nCL: 13,
                nRCD: 13,
                nRP: 13,
                nCWL: 10,
                nRAS: 32,
                nRC: 45,
                nRTP: 7,
                nWTRS: 3,
                nWTRL: 7,
                nWR: 14,
                nRRDS: 0,
                nRRDL: 0,
                nFAW: 0,
                nRFC: 0,
                nREFI: 0,
                nPD: 5,
                nXP: 6,
                nXPDLL: 0,
                nCKESR: 6,
                nXS: 0,
                nXSDLL: 0,
            },
            Speed::DDR4_1866N => SpeedEntry {
                rate: 1866,
                nBL: 4,
                nCCDS: 4,
                nCCDL: 5,
                nRTRS: 2,
                nCL: 14,
                nRCD: 14,
                nRP: 14,
                nCWL: 10,
                nRAS: 32,
                nRC: 46,
                nRTP: 7,
                nWTRS: 3,
                nWTRL: 7,
                nWR: 14,
                nRRDS: 0,
                nRRDL: 0,
                nFAW: 0,
                nRFC: 0,
                nREFI: 0,
                nPD: 5,
                nXP: 6,
                nXPDLL: 0,
                nCKESR: 6,
                nXS: 0,
                nXSDLL: 0,
            },
            Speed::DDR4_2133P => SpeedEntry {
                rate: 2133,
                nBL: 4,
                nCCDS: 4,
                nCCDL: 6,
                nRTRS: 2,
                nCL: 15,
                nRCD: 15,
                nRP: 15,
                nCWL: 11,
                nRAS: 36,
                nRC: 51,
                nRTP: 8,
                nWTRS: 3,
                nWTRL: 8,
                nWR: 16,
                nRRDS: 0,
                nRRDL: 0,
                nFAW: 0,
                nRFC: 0,
                nREFI: 0,
                nPD: 6,
                nXP: 7,
                nXPDLL: 0,
                nCKESR: 7,
                nXS: 0,
                nXSDLL: 0,
            },
            Speed::DDR4_2133R => SpeedEntry {
                rate: 2133,
                nBL: 4,
                nCCDS: 4,
                nCCDL: 6,
                nRTRS: 2,
                nCL: 16,
                nRCD: 16,
                nRP: 16,
                nCWL: 11,
                nRAS: 36,
                nRC: 52,
                nRTP: 8,
                nWTRS: 3,
                nWTRL: 8,
                nWR: 16,
                nRRDS: 0,
                nRRDL: 0,
                nFAW: 0,
                nRFC: 0,
                nREFI: 0,
                nPD: 6,
                nXP: 7,
                nXPDLL: 0,
                nCKESR: 7,
                nXS: 0,
                nXSDLL: 0,
            },
            Speed::DDR4_2400R => SpeedEntry {
                rate: 2400,
                nBL: 4,
                nCCDS: 4,
                nCCDL: 6,
                nRTRS: 2,
                nCL: 16,
                nRCD: 16,
                nRP: 16,
                nCWL: 12,
                nRAS: 39,
                nRC: 55,
                nRTP: 9,
                nWTRS: 3,
                nWTRL: 9,
                nWR: 18,
                nRRDS: 0,
                nRRDL: 0,
                nFAW: 0,
                nRFC: 0,
                nREFI: 0,
                nPD: 6,
                nXP: 8,
                nXPDLL: 0,
                nCKESR: 7,
                nXS: 0,
                nXSDLL: 0,
            },
            Speed::DDR4_2400U => SpeedEntry {
                rate: 2400,
                nBL: 4,
                nCCDS: 4,
                nCCDL: 6,
                nRTRS: 2,
                nCL: 18,
                nRCD: 18,
                nRP: 18,
                nCWL: 12,
                nRAS: 39,
                nRC: 57,
                nRTP: 9,
                nWTRS: 3,
                nWTRL: 9,
                nWR: 18,
                nRRDS: 0,
                nRRDL: 0,
                nFAW: 0,
                nRFC: 0,
                nREFI: 0,
                nPD: 6,
                nXP: 8,
                nXPDLL: 0,
                nCKESR: 7,
                nXS: 0,
                nXSDLL: 0,
            },
            Speed::DDR4_3200 => SpeedEntry {
                rate: 3200,
                nBL: 4,
                nCCDS: 4,
                nCCDL: 10,
                nRTRS: 2,
                nCL: 22,
                nRCD: 22,
                nRP: 22,
                nCWL: 16,
                nRAS: 56,
                nRC: 78,
                nRTP: 12,
                nWTRS: 4,
                nWTRL: 12,
                nWR: 24,
                nRRDS: 8,
                nRRDL: 10,
                nFAW: 40,
                nRFC: 0,
                nREFI: 0,
                nPD: 8,
                nXP: 10,
                nXPDLL: 0,
                nCKESR: 8,
                nXS: 0,
                nXSDLL: 0,
            },
        }
    }
}

impl DDR4 {
    /// Whether a bank of the rank `rank` is not closed.
    pub open spec fn any_bank_open(rank: DramModel<DDR4>) -> bool {
        exists|i: int, j: int|
            0 <= i < rank.children.len() && 0 <= j < rank.children[i].children.len()
                && #[trigger] rank.children[i].children[j].state != State::Closed
    }

    /// The rank `rank` with every bank closed.
    pub open spec fn all_banks_closed(rank: DramModel<DDR4>) -> DramModel<DDR4> {
        DramModel {
            children: Seq::new(
                rank.children.len(),
                |i: int|
                    DramModel {
                        children: Seq::new(
                            rank.children[i].children.len(),
                            |j: int|
                                DramModel { state: State::Closed, ..rank.children[i].children[j] },
                        ),
                        ..rank.children[i]
                    },
            ),
            ..rank
        }
    }

    fn has_open_bank(rank: &Dram<DDR4>) -> (r: bool)
        ensures
            r == Self::any_bank_open(rank@),
    {
        let mut i: usize = 0;
        while i < rank.children.len()
            invariant
                i <= rank.children.len(),
                forall|a: int, b: int|
                    0 <= a < i && 0 <= b < rank@.children[a].children.len()
                        ==> #[trigger] rank@.children[a].children[b].state == State::Closed,
            decreases rank.children.len() - i,
        {
            let group = &rank.children[i];
            assert(group@ == rank@.children[i as int]);
            let mut j: usize = 0;
            while j < group.children.len()
                invariant
                    j <= group.children.len(),
                    i < rank.children.len(),
                    group@ == rank@.children[i as int],
                    forall|b: int|
                        0 <= b < j ==> #[trigger] group@.children[b].state == State::Closed,
                decreases group.children.len() - j,
            {
                assert(group.children[j as int]@ == group@.children[j as int]);
                if group.children[j].state != State::Closed {
                    assert(rank@.children[i as int].children[j as int].state != State::Closed);
                    return true;
                }
                j += 1;
            }
            i += 1;
        }
        false
    }
}

impl DramTypes for DDR4 {
    type Level = Level;

    type Command = Command;
}

impl DramSpec for DDR4 {
    closed spec fn wf(&self) -> bool {
        &&& self.addr_size@.len() == Level::MAX_LEVEL
        &&& self.addr_bits@.len() == Level::MAX_LEVEL
        &&& forall|l: int|
            0 <= l < Level::MAX_LEVEL ==> #[trigger] self.addr_bits@[l] == log2_floor(
                self.addr_size@[l] as nat,
            )
        &&& self.timing@.len() == Level::MAX_LEVEL
        &&& forall|l: int|
            0 <= l < Level::MAX_LEVEL ==> (#[trigger] self.timing@[l])@.len() == Command::MAX
        &&& forall|level: Level, cmd: Command, i: int|
            0 <= i < self.timing(level, cmd).len() ==> crate::model::entry_ok(
                #[trigger] self.timing(level, cmd)[i],
            ) && self.timing(level, cmd)[i].val <= DELAY_LIMIT
        &&& self.read_latency <= DELAY_LIMIT
    }

    open spec fn first_cmd(req_type: ReqType) -> Command {
        match req_type {
            ReqType::Read => Command::RD,
            ReqType::Write => Command::WR,
        }
    }

    open spec fn pre_cmd(dram: DramModel<Self>, cmd: Command, child_id: u64) -> Option<Command> {
        match (dram.level, cmd) {
            (Level::Rank, Command::RD) | (Level::Rank, Command::WR) => match dram.state {
                State::ActPowerDown | State::PrePowerDown => Some(Command::PDX),
                State::SelfRefresh => Some(Command::SRX),
                _ => None,
            },
            (Level::Rank, Command::REF) => if Self::any_bank_open(dram) {
                Some(Command::PREA)
            } else {
                Some(Command::REF)
            },
            (Level::Rank, Command::PDE) => match dram.state {
                State::SelfRefresh => Some(Command::SRX),
                _ => Some(Command::PDE),
            },
            (Level::Rank, Command::SRE) => match dram.state {
                State::ActPowerDown | State::PrePowerDown => Some(Command::PDX),
                State::SelfRefresh => Some(Command::SRX),
                _ => Some(Command::SRE),
            },
            (Level::Bank, Command::RD) | (Level::Bank, Command::WR) => match dram.state {
                State::Closed => Some(Command::ACT),
                State::Opened(row_id) => if row_id == child_id {
                    Some(cmd)
                } else {
                    Some(Command::PRE)
                },
                _ => None,
            },
            _ => None,
        }
    }

    open spec fn start_state(level: Level) -> State {
        match level {
            Level::Channel => State::NoUse,
            Level::Rank => State::PowerUp,
            Level::BankGroup => State::NoUse,
            Level::Bank => State::Closed,
            Level::Row => State::Closed,
            Level::Column => State::NoUse,
        }
    }

    open spec fn state_allowed(level: Level, state: State) -> bool {
        match level {
            Level::Channel => state == State::NoUse,
            Level::Rank => state == State::PowerUp || state == State::ActPowerDown || state
                == State::PrePowerDown || state == State::SelfRefresh,
            Level::BankGroup => state == State::NoUse,
            Level::Bank => state == State::Closed || state is Opened,
            Level::Row => state == State::Closed,
            Level::Column => state == State::NoUse,
        }
    }

    open spec fn scope(&self, cmd: Command) -> Level {
        match cmd {
            Command::ACT => Level::Row,
            Command::PRE => Level::Bank,
            Command::PREA => Level::Rank,
            Command::RD => Level::Column,
            Command::WR => Level::Column,
            Command::RDA => Level::Column,
            Command::WRA => Level::Column,
            Command::REF => Level::Rank,
            Command::PDE => Level::Rank,
            Command::PDX => Level::Rank,
            Command::SRE => Level::Rank,
            Command::SRX => Level::Rank,
        }
    }

    open spec fn next_state(&self, dram: DramModel<Self>, cmd: Command, child_id: u64) -> DramModel<
        Self,
    > {
        match (dram.level, cmd) {
            (Level::Bank, Command::ACT) => DramModel { state: State::Opened(child_id), ..dram },
            (Level::Bank, Command::PRE) | (Level::Bank, Command::RDA) | (
                Level::Bank,
                Command::WRA,
            ) => DramModel { state: State::Closed, ..dram },
            (Level::Rank, Command::PREA) => Self::all_banks_closed(dram),
            (Level::Rank, Command::PDE) => DramModel {
                state: if Self::any_bank_open(dram) {
                    State::ActPowerDown
                } else {
                    State::PrePowerDown
                },
                ..dram
            },
            (Level::Rank, Command::PDX) => DramModel { state: State::PowerUp, ..dram },
            (Level::Rank, Command::SRE) => DramModel { state: State::SelfRefresh, ..dram },
            (Level::Rank, Command::SRX) => DramModel { state: State::PowerUp, ..dram },
            _ => dram,
        }
    }

    closed spec fn timing(&self, level: Level, cmd: Command) -> Seq<TimeEntry<Command>> {
        self.timing@[level.index() as int]@[cmd.index() as int]@
    }

    closed spec fn read_latency(&self) -> u64 {
        self.read_latency
    }

    closed spec fn addr_bits(&self) -> Seq<usize> {
        self.addr_bits@
    }

    closed spec fn addr_size(&self) -> Seq<usize> {
        self.addr_size@
    }

    open spec fn decoded_addr(&self, addr: u64, mapping_type: MappingType) -> Seq<u64> {
        utils::sliced(
            addr >> 6,
            self.addr_bits(),
            mapping_type.slice_sequence(true),
            Seq::new(Level::MAX_LEVEL as nat, |l: int| 0u64),
        )
    }

    open spec fn encoded_addr(&self, addr_vec: Seq<u64>, mapping_type: MappingType) -> u64 {
        utils::packed(addr_vec, self.addr_bits(), mapping_type.slice_sequence(true)) << 6
    }

    open spec fn prefetch_size(&self) -> usize {
        8
    }

    open spec fn channel_width(&self) -> usize {
        64
    }

    open spec fn horizon(&self) -> nat {
        DELAY_LIMIT as nat
    }

    proof fn lemma_tables(&self) {
    }

    proof fn lemma_start_state(level: Level) {
    }

    proof fn lemma_next_state_frame(&self, dram: DramModel<Self>, cmd: Command, child_id: u64) {
        let next = self.next_state(dram, cmd, child_id);
        assert forall|i: int| 0 <= i < dram.children.len() implies (#[trigger] dram.children[i]).same_frame(
            next.children[i],
        ) by {
            let group = dram.children[i];
            assert forall|j: int| 0 <= j < group.children.len() implies (#[trigger] group.children[j]).same_frame(
                next.children[i].children[j],
            ) by {
                crate::model::lemma_same_frame_refl(group.children[j]);
            }
            crate::model::lemma_same_frame_refl(group);
        }
        crate::model::lemma_same_frame_refl(dram);
    }

    proof fn lemma_next_state_allowed(&self, dram: DramModel<Self>, cmd: Command, child_id: u64) {
        let allowed = |level: Level, state: State| Self::state_allowed(level, state);
        let next = self.next_state(dram, cmd, child_id);
        if dram.level == Level::Rank && cmd == Command::PREA {
            assert forall|i: int| 0 <= i < next.children.len() implies (#[trigger] next.children[i]).states_satisfy(
                allowed,
            ) by {
                let group = dram.children[i];
                assert(group.states_satisfy(allowed));
                assert(group.levels_descend());
                assert forall|j: int| 0 <= j < group.children.len() implies (
                #[trigger] next.children[i].children[j]).states_satisfy(allowed) by {
                    assert(group.children[j].states_satisfy(allowed));
                }
            }
        }
    }

    proof fn lemma_decoded_addr(&self, addr: u64, mapping_type: MappingType) {
        let order = mapping_type.slice_sequence(true);
        let blank = Seq::new(Level::MAX_LEVEL as nat, |l: int| 0u64);
        self.lemma_bits_fit_word();
        utils::lemma_sliced_len(addr >> 6, self.addr_bits(), order, blank);
        assert forall|l: int|
            0 <= l < Level::MAX_LEVEL && self.addr_size()[l] > 0 implies #[trigger] self.decoded_addr(
            addr,
            mapping_type,
        )[l] < self.addr_size()[l] by {
            assert(order[5 - l] == l || order[l] == l || order[0] == l || order[1] == l || order[2]
                == l || order[3] == l || order[4] == l || order[5] == l);
            utils::lemma_sliced_fits(addr >> 6, self.addr_bits(), order, blank, l);
            lemma_log2_floor_bound(self.addr_size@[l] as nat);
        }
    }

    fn get_first_cmd(req_type: &ReqType) -> (r: Command) {
        match req_type {
            ReqType::Read => Command::RD,
            ReqType::Write => Command::WR,
        }
    }

    fn get_pre_cmd(dram: &Dram<Self>, cmd: &Command, child_id: u64) -> (r: Option<Command>) {
        match (dram.level, *cmd) {
            (Level::Rank, Command::RD) | (Level::Rank, Command::WR) => match dram.state {
                State::ActPowerDown | State::PrePowerDown => Some(Command::PDX),
                State::SelfRefresh => Some(Command::SRX),
                _ => None,
            },
            (Level::Rank, Command::REF) => {
                if Self::has_open_bank(dram) {
                    Some(Command::PREA)
                } else {
                    Some(Command::REF)
                }
            },
            (Level::Rank, Command::PDE) => match dram.state {
                State::SelfRefresh => Some(Command::SRX),
                _ => Some(Command::PDE),
            },
            (Level::Rank, Command::SRE) => match dram.state {
                State::ActPowerDown | State::PrePowerDown => Some(Command::PDX),
                State::SelfRefresh => Some(Command::SRX),
                _ => Some(Command::SRE),
            },
            (Level::Bank, Command::RD) | (Level::Bank, Command::WR) => match dram.state {
                State::Closed => Some(Command::ACT),
                State::Opened(row_id) => {
                    if row_id == child_id {
                        Some(*cmd)
                    } else {
                        Some(Command::PRE)
                    }
                },
                _ => None,
            },
            _ => None,
        }
    }

    fn get_start_state(level: &Level) -> (r: State) {
        match level {
            Level::Channel => State::NoUse,
            Level::Rank => State::PowerUp,
            Level::BankGroup => State::NoUse,
            Level::Bank => State::Closed,
            Level::Row => State::Closed,
            Level::Column => State::NoUse,
        }
    }

    fn get_scope(&self, cmd: &Command) -> (r: Level) {
        match cmd {
            Command::ACT => Level::Row,
            Command::PRE => Level::Bank,
            Command::PREA => Level::Rank,
            Command::RD => Level::Column,
            Command::WR => Level::Column,
            Command::RDA => Level::Column,
            Command::WRA => Level::Column,
            Command::REF => Level::Rank,
            Command::PDE => Level::Rank,
            Command::PDX => Level::Rank,
            Command::SRE => Level::Rank,
            Command::SRX => Level::Rank,
        }
    }

    fn update_state(&self, dram: &mut Dram<Self>, cmd: &Command, child_id: u64) {
        let ghost before = dram@;
        match (dram.level, *cmd) {
            (Level::Bank, Command::ACT) => {
                dram.state = State::Opened(child_id);
                assert(dram@.children =~= before.children);
                assert(dram@.prev =~= before.prev);
            },
            (Level::Bank, Command::PRE) | (Level::Bank, Command::RDA) | (
                Level::Bank,
                Command::WRA,
            ) => {
                dram.state = State::Closed;
                assert(dram@.children =~= before.children);
                assert(dram@.prev =~= before.prev);
            },
            (Level::Rank, Command::PREA) => {
                Self::close_banks(dram);
            },
            (Level::Rank, Command::PDE) => {
                if Self::has_open_bank(dram) {
                    dram.state = State::ActPowerDown;
                } else {
                    dram.state = State::PrePowerDown;
                }
                assert(dram@.children =~= before.children);
                assert(dram@.prev =~= before.prev);
            },
            (Level::Rank, Command::PDX) => {
                dram.state = State::PowerUp;
                assert(dram@.children =~= before.children);
                assert(dram@.prev =~= before.prev);
            },
            (Level::Rank, Command::SRE) => {
                dram.state = State::SelfRefresh;
                assert(dram@.children =~= before.children);
                assert(dram@.prev =~= before.prev);
            },
            (Level::Rank, Command::SRX) => {
                dram.state = State::PowerUp;
                assert(dram@.children =~= before.children);
                assert(dram@.prev =~= before.prev);
            },
            _ => {},
        }
    }

    fn get_timming(&self, level: &Level, cmd: &Command) -> (r: &[TimeEntry<Command>]) {
        self.timing[level.to_usize()][cmd.to_usize()].as_slice()
    }

    fn get_read_latency(&self) -> (r: u64) {
        self.read_latency
    }

    fn get_addr_bits(&self, level: &Level) -> (r: usize) {
        self.addr_bits[level.to_usize()]
    }

    fn get_addr_size(&self, level: &Level) -> (r: usize) {
        self.addr_size[level.to_usize()]
    }

    fn decode_addr(&self, addr: u64, mapping_type: &MappingType) -> (r: Vec<u64>) {
        let mut addr = addr;
        utils::clear_lower_bits(&mut addr, 6);
        let mut addr_vec: Vec<u64> = Vec::new();
        let mut l: usize = 0;
        while l < Level::MAX_LEVEL
            invariant
                l <= Level::MAX_LEVEL,
                addr_vec@.len() == l,
                forall|k: int| 0 <= k < l ==> addr_vec@[k] == 0,
            decreases Level::MAX_LEVEL - l,
        {
            addr_vec.push(0);
            l += 1;
        }
        assert(addr_vec@ =~= Seq::new(Level::MAX_LEVEL as nat, |l: int| 0u64));
        proof {
            self.lemma_bits_fit_word();
        }
        utils::setup_addr_vec(
            addr,
            self.get_full_addr_bits(),
            addr_vec.as_mut_slice(),
            mapping_type.get_slice_sequence(true),
        );
        addr_vec
    }

    /// The address of the coordinates; its six lowest bits are zero.
    fn encode_addr(&self, addr: &[u64], mapping_type: &MappingType) -> (r: u64) {
        proof {
            self.lemma_bits_fit_word();
        }
        utils::set_up_addr(addr, self.get_full_addr_bits(), mapping_type.get_slice_sequence(true))
            << 6
    }

    fn get_full_addr_bits(&self) -> (r: &[usize]) {
        self.addr_bits.as_slice()
    }

    fn get_full_addr_size(&self) -> (r: &[usize]) {
        self.addr_size.as_slice()
    }

    fn get_prefetch_size(&self) -> (r: usize) {
        8
    }

    fn get_channel_width(&self) -> (r: usize) {
        64
    }
}

impl DDR4 {
    /// Closes every bank of the rank `rank`.
    #[verifier::loop_isolation(false)]
    fn close_banks(rank: &mut Dram<DDR4>)
        ensures
            final(rank)@ == Self::all_banks_closed(old(rank)@),
    {
        let ghost before = rank@;
        let groups = rank.children.len();
        let mut i: usize = 0;
        while i < groups
            invariant
                i <= groups,
                groups == rank.children@.len(),
                groups == before.children.len(),
                before == old(rank)@,
                rank.level == old(rank).level,
                rank.id == old(rank).id,
                rank.state == old(rank).state,
                rank.next_clk == old(rank).next_clk,
                rank.prev == old(rank).prev,
                forall|a: int|
                    0 <= a < i ==> (#[trigger] rank.children@[a])@ == Self::all_banks_closed(
                        before,
                    ).children[a],
                forall|a: int| i <= a < groups ==> (#[trigger] rank.children@[a])@ == before.children[a],
            decreases groups - i,
        {
            let ghost group_before = rank.children@[i as int]@;
            let ghost others = rank.children@;
            let banks = rank.children[i].children.len();
            assert(group_before == before.children[i as int]);
            assert(forall|a: int|
                0 <= a < i ==> (#[trigger] others[a])@ == Self::all_banks_closed(before).children[a]);
            assert(forall|a: int| i < a < groups ==> (#[trigger] others[a])@ == before.children[a]);
            let mut j: usize = 0;
            while j < banks
                invariant
                    j <= banks,
                    i < groups,
                    groups == rank.children@.len(),
                    banks == rank.children@[i as int].children@.len(),
                    banks == group_before.children.len(),
                    rank.level == old(rank).level,
                    rank.id == old(rank).id,
                    rank.state == old(rank).state,
                    rank.next_clk == old(rank).next_clk,
                    rank.prev == old(rank).prev,
                    forall|a: int| 0 <= a < groups && a != i ==> rank.children@[a] == others[a],
                    rank.children@[i as int].level == group_before.level,
                    rank.children@[i as int].id == group_before.id,
                    rank.children@[i as int].state == group_before.state,
                    rank.children@[i as int].next_clk@ == group_before.next_clk,
                    rank.children@[i as int]@.prev == group_before.prev,
                    forall|b: int|
                        0 <= b < j ==> (#[trigger] rank.children@[i as int].children@[b])@
                            == (DramModel::<DDR4> { state: State::Closed, ..group_before.children[b] }),
                    forall|b: int|
                        j <= b < banks ==> (#[trigger] rank.children@[i as int].children@[b])@
                            == group_before.children[b],
                decreases banks - j,
            {
                let ghost bank_before = rank.children@[i as int].children@[j as int]@;
                let ghost banks_before = rank.children@[i as int].children@;
                let ghost group_prev = rank.children@[i as int]@.prev;
                rank.children[i].children[j].state = State::Closed;
                proof {
                    let bank = rank.children@[i as int].children@[j as int];
                    assert(bank@.children =~= bank_before.children);
                    assert(bank@.prev =~= bank_before.prev);
                    assert(forall|b: int|
                        0 <= b < banks && b != j ==> rank.children@[i as int].children@[b]
                            == banks_before[b]);
                    assert(rank.children@[i as int]@.prev =~= group_prev);
                }
                j += 1;
            }
            proof {
                let group = rank.children@[i as int]@;
                let closed = Self::all_banks_closed(before).children[i as int];
                assert(group.children.len() == banks);
                assert(closed.children.len() == banks);
                assert forall|b: int| 0 <= b < banks implies group.children[b]
                    == closed.children[b] by {
                    assert(group.children[b] == rank.children@[i as int].children@[b]@);
                    assert(closed.children[b] == (DramModel::<DDR4> {
                        state: State::Closed,
                        ..group_before.children[b]
                    }));
                }
                assert(group.children =~= closed.children);
                assert(group == closed);
                assert forall|a: int| 0 <= a < i + 1 implies (#[trigger] rank.children@[a])@
                    == Self::all_banks_closed(before).children[a] by {
                    if a != i {
                        assert(rank.children@[a] == others[a]);
                    }
                }
                assert forall|a: int| i + 1 <= a < groups implies (#[trigger] rank.children@[a])@
                    == before.children[a] by {
                    assert(rank.children@[a] == others[a]);
                }
            }
            i += 1;
        }
        assert(rank@.children =~= Self::all_banks_closed(before).children);
        assert(rank@.prev =~= before.prev);
    }
}

} // verus!
