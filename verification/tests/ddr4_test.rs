use ramu_rs::config::Config;
use ramu_rs::ddr4::Command::{ACT, PDE, PDX, PRE, PREA, RD, RDA, REF, SRE, SRX, WR, WRA};
use ramu_rs::ddr4::{Command, DDR4Org, Level, Speed, DDR4};
use ramu_rs::dram::{CommandTrait, DramSpec, LevelTrait, State, TimeEntry};
use ramu_rs::memory::MappingType;
use ramu_rs::request::ReqType;

#[test]
fn test_address() {
    let config = Config::default();
    let ddr4 = DDR4::new(&config);
    println!("testing ddr4 address");
    let addr = 1;

    let addr_vec = ddr4.decode_addr(addr, &MappingType::RoBaRaCoCh);
    println!("{:?}", addr_vec);
    let addr_ = ddr4.encode_addr(&addr_vec, &MappingType::RoBaRaCoCh);
    println!("{:?}", addr_);
    assert_eq!(addr, addr_ + 1);

    let addr = 65;

    let addr_vec = ddr4.decode_addr(addr, &MappingType::RoBaRaCoCh);
    println!("{:?}", addr_vec);
    let addr_ = ddr4.encode_addr(&addr_vec, &MappingType::RoBaRaCoCh);
    println!("{:?}", addr_);
    assert_eq!(addr, addr_ + 1);

    let addr = 64 * 4 + 1;

    let addr_vec = ddr4.decode_addr(addr, &MappingType::RoBaRaCoCh);
    println!("{:?}", addr_vec);
    let addr_ = ddr4.encode_addr(&addr_vec, &MappingType::RoBaRaCoCh);
    println!("{:?}", addr_);
    assert_eq!(addr, addr_ + 1);
}

fn entry(e: &TimeEntry<Command>) -> (Command, usize, u64, bool) {
    (e.cmd, e.dist, e.val, e.sibling)
}

#[test]
fn levels_run_from_the_channel_to_the_column() {
    assert_eq!(Level::channel(), Level::Channel);
    assert_eq!(Level::Channel.next_level(), Some(Level::Rank));
    assert_eq!(Level::Rank.next_level(), Some(Level::BankGroup));
    assert_eq!(Level::BankGroup.next_level(), Some(Level::Bank));
    assert_eq!(Level::Bank.next_level(), Some(Level::Row));
    assert_eq!(Level::Row.next_level(), Some(Level::Column));
    assert_eq!(Level::Column.next_level(), None);
    assert_eq!(<Level as LevelTrait>::next_level(&Level::Bank), Some(Level::Row));
    assert_eq!(<Level as LevelTrait>::MAX_LEVEL, 6);
    let all = [
        Level::Channel,
        Level::Rank,
        Level::BankGroup,
        Level::Bank,
        Level::Row,
        Level::Column,
    ];
    for (i, level) in all.iter().enumerate() {
        assert_eq!(level.to_usize(), i);
        assert_eq!(level.is_channel(), i == 0);
        assert_eq!(level.is_bank(), i == 3);
        assert_eq!(level.is_row(), i == 4);
        // only the levels above the row have nodes
        assert_eq!(level.need_init_dram(), i < 4);
    }
    assert!(Level::have_bank_group());
}

#[test]
fn commands_are_numbered_from_act_to_srx() {
    let all = [
        Command::ACT,
        Command::PRE,
        Command::PREA,
        Command::RD,
        Command::WR,
        Command::RDA,
        Command::WRA,
        Command::REF,
        Command::PDE,
        Command::PDX,
        Command::SRE,
        Command::SRX,
    ];
    assert_eq!(<Command as CommandTrait>::MAX, 12);
    for (i, cmd) in all.iter().enumerate() {
        assert_eq!(cmd.to_usize(), i);
        assert_eq!(cmd.to_u8(), i as u8);
        assert_eq!(Command::try_from_u8(i as u8), Ok(*cmd));
        assert_eq!(Command::try_from_usize(i), Ok(*cmd));
        assert_eq!(cmd.is_act(), i == 0);
    }
}

#[test]
fn numbers_without_a_command_are_refused() {
    assert_eq!(Command::try_from_u8(12), Err(()));
    assert_eq!(Command::try_from_u8(255), Err(()));
    assert_eq!(Command::try_from_usize(12), Err(()));
    assert_eq!(Command::try_from_usize(255), Err(()));
}

#[test]
fn only_the_low_byte_of_a_number_counts() {
    assert_eq!(Command::try_from_usize(256), Ok(Command::ACT));
    assert_eq!(Command::try_from_usize(256 + 11), Ok(Command::SRX));
    assert_eq!(Command::try_from_usize(256 + 12), Err(()));
}

#[test]
fn the_default_device_has_the_sizes_of_4gb_x8() {
    let ddr4 = DDR4::new(&Config::default());
    assert_eq!(ddr4.get_full_addr_size(), &[1, 1, 4, 4, 1 << 15, 1 << 7]);
    assert_eq!(ddr4.get_full_addr_bits(), &[0, 0, 2, 2, 15, 7]);
    assert_eq!(ddr4.get_addr_size(&Level::Row), 32768);
    assert_eq!(ddr4.get_addr_bits(&Level::Column), 7);
    assert_eq!(ddr4.get_read_latency(), 20);
    assert_eq!(ddr4.get_prefetch_size(), 8);
    assert_eq!(ddr4.get_channel_width(), 64);
}

#[test]
fn every_organisation_has_its_sizes() {
    let cases = [
        (DDR4Org::DDR4_2Gb_x4, [4, 4, 1 << 15, 1 << 7], [2, 2, 15, 7]),
        (DDR4Org::DDR4_2Gb_x8, [4, 4, 1 << 14, 1 << 7], [2, 2, 14, 7]),
        (DDR4Org::DDR4_2Gb_x16, [2, 4, 1 << 14, 1 << 7], [1, 2, 14, 7]),
        (DDR4Org::DDR4_4Gb_x4, [4, 4, 1 << 16, 1 << 7], [2, 2, 16, 7]),
        (DDR4Org::DDR4_4Gb_x8, [4, 4, 1 << 15, 1 << 7], [2, 2, 15, 7]),
        (DDR4Org::DDR4_4Gb_x16, [2, 4, 1 << 15, 1 << 7], [1, 2, 15, 7]),
        (DDR4Org::DDR4_8Gb_x4, [4, 4, 1 << 17, 1 << 7], [2, 2, 17, 7]),
        (DDR4Org::DDR4_8Gb_x8, [4, 4, 1 << 16, 1 << 7], [2, 2, 16, 7]),
        (DDR4Org::DDR4_8Gb_x16, [2, 4, 1 << 16, 1 << 7], [1, 2, 16, 7]),
    ];
    for (org, sizes, bits) in cases {
        let config = Config { channels: 2, ranks: 5, ddr4_org: org, ..Config::default() };
        let ddr4 = DDR4::new(&config);
        let size = ddr4.get_full_addr_size();
        assert_eq!(size[0], 2);
        assert_eq!(size[1], 5);
        assert_eq!(&size[2..], &sizes);
        let width = ddr4.get_full_addr_bits();
        assert_eq!(width[0], 1);
        // five ranks are addressed by two bits: the logarithm is rounded down
        assert_eq!(width[1], 2);
        assert_eq!(&width[2..], &bits);
    }
}

#[test]
fn the_speed_bins_have_their_parameters() {
    let s = DDR4::get_speed(&Speed::DDR4_2400R);
    assert_eq!(
        (s.rate, s.nBL, s.nCCDS, s.nCCDL, s.nRTRS, s.nCL, s.nRCD, s.nRP, s.nCWL),
        (2400, 4, 4, 6, 2, 16, 16, 16, 12)
    );
    assert_eq!(
        (s.nRAS, s.nRC, s.nRTP, s.nWTRS, s.nWTRL, s.nWR, s.nRRDS, s.nRRDL, s.nFAW),
        (39, 55, 9, 3, 9, 18, 0, 0, 0)
    );
    assert_eq!(
        (s.nRFC, s.nREFI, s.nPD, s.nXP, s.nXPDLL, s.nCKESR, s.nXS, s.nXSDLL),
        (0, 0, 6, 8, 0, 7, 0, 0)
    );
    let s = DDR4::get_speed(&Speed::DDR4_3200);
    assert_eq!(
        (s.rate, s.nBL, s.nCCDS, s.nCCDL, s.nRTRS, s.nCL, s.nRCD, s.nRP, s.nCWL),
        (3200, 4, 4, 10, 2, 22, 22, 22, 16)
    );
    assert_eq!(
        (s.nRAS, s.nRC, s.nRTP, s.nWTRS, s.nWTRL, s.nWR, s.nRRDS, s.nRRDL, s.nFAW),
        (56, 78, 12, 4, 12, 24, 8, 10, 40)
    );
    assert_eq!(
        (s.nRFC, s.nREFI, s.nPD, s.nXP, s.nXPDLL, s.nCKESR, s.nXS, s.nXSDLL),
        (0, 0, 8, 10, 0, 8, 0, 0)
    );
    let bins = [
        (Speed::DDR4_1600K, 1600, 11, 11, 11, 39),
        (Speed::DDR4_1600L, 1600, 12, 12, 12, 40),
        (Speed::DDR4_1866M, 1866, 13, 13, 13, 45),
        (Speed::DDR4_1866N, 1866, 14, 14, 14, 46),
        (Speed::DDR4_2133P, 2133, 15, 15, 15, 51),
        (Speed::DDR4_2133R, 2133, 16, 16, 16, 52),
        (Speed::DDR4_2400R, 2400, 16, 16, 16, 55),
        (Speed::DDR4_2400U, 2400, 18, 18, 18, 57),
        (Speed::DDR4_3200, 3200, 22, 22, 22, 78),
    ];
    for (speed, rate, cl, rcd, rp, rc) in bins {
        let s = DDR4::get_speed(&speed);
        assert_eq!((s.rate, s.nCL, s.nRCD, s.nRP, s.nRC), (rate, cl, rcd, rp, rc));
        let config = Config { ddr4_speed: speed, ..Config::default() };
        assert_eq!(DDR4::new(&config).get_read_latency(), cl + 4);
    }
}

#[test]
fn the_timing_table_holds_the_rules() {
    let ddr4 = DDR4::new(&Config::default());
    let at = |level: Level, cmd: Command| -> Vec<(Command, usize, u64, bool)> {
        ddr4.get_timming(&level, &cmd).iter().map(entry).collect()
    };
    // the channel: a burst keeps the bus for nBL
    assert_eq!(at(Level::Channel, RD), vec![(RD, 1, 4, false), (RDA, 1, 4, false)]);
    assert_eq!(at(Level::Channel, WRA), vec![(WR, 1, 4, false), (WRA, 1, 4, false)]);
    assert_eq!(at(Level::Channel, ACT), vec![]);
    // the rank
    assert_eq!(
        at(Level::Rank, ACT),
        vec![
            (ACT, 1, 0, false),
            (ACT, 4, 0, false),
            (PREA, 1, 39, false),
            (REF, 1, 55, false),
            (PDE, 1, 1, false),
        ]
    );
    assert_eq!(
        at(Level::Rank, RD),
        vec![
            (RD, 1, 4, false),
            (RDA, 1, 4, false),
            (WR, 1, 10, false),
            (WRA, 1, 10, false),
            (RD, 1, 6, true),
            (RDA, 1, 6, true),
            (WR, 1, 6, true),
            (WRA, 1, 6, true),
            (WR, 1, 10, true),
            (WRA, 1, 10, true),
            (PREA, 1, 9, false),
            (PDE, 1, 21, false),
        ]
    );
    assert_eq!(
        at(Level::Rank, WR),
        vec![
            (WR, 1, 4, false),
            (WRA, 1, 4, false),
            (RD, 1, 19, false),
            (RDA, 1, 19, false),
            (RD, 1, 2, true),
            (RDA, 1, 2, true),
            (PREA, 1, 34, false),
            (PDE, 1, 34, false),
        ]
    );
    assert_eq!(
        at(Level::Rank, WRA),
        vec![
            (WR, 1, 4, false),
            (WRA, 1, 4, false),
            (RD, 1, 19, false),
            (RDA, 1, 19, false),
            (RD, 1, 2, true),
            (RDA, 1, 2, true),
            (PDE, 1, 35, false),
            (REF, 1, 50, false),
        ]
    );
    assert_eq!(
        at(Level::Rank, PDX),
        vec![
            (RD, 1, 8, false),
            (RDA, 1, 8, false),
            (WR, 1, 8, false),
            (WRA, 1, 8, false),
            (ACT, 1, 8, false),
            (PRE, 1, 8, false),
            (PREA, 1, 8, false),
            (REF, 1, 8, false),
            (PDE, 1, 8, false),
            (SRE, 1, 8, false),
        ]
    );
    assert_eq!(at(Level::Rank, PDE), vec![(PDX, 1, 6, false)]);
    assert_eq!(at(Level::Rank, SRE), vec![(SRX, 1, 7, false)]);
    assert_eq!(
        at(Level::Rank, REF),
        vec![(ACT, 1, 0, false), (REF, 1, 0, false), (PDE, 1, 1, false)]
    );
    // the bank group
    assert_eq!(at(Level::BankGroup, RD), vec![(RD, 1, 6, false), (RDA, 1, 6, false)]);
    assert_eq!(
        at(Level::BankGroup, WR),
        vec![(WR, 1, 6, false), (WRA, 1, 6, false), (RD, 1, 25, false), (RDA, 1, 25, false)]
    );
    assert_eq!(at(Level::BankGroup, ACT), vec![(ACT, 1, 0, false)]);
    // the bank
    assert_eq!(
        at(Level::Bank, ACT),
        vec![
            (RD, 1, 16, false),
            (RDA, 1, 16, false),
            (WR, 1, 16, false),
            (WRA, 1, 16, false),
            (ACT, 1, 55, false),
            (PRE, 1, 39, false),
        ]
    );
    assert_eq!(at(Level::Bank, RD), vec![(PRE, 1, 9, false)]);
    assert_eq!(at(Level::Bank, WR), vec![(PRE, 1, 34, false)]);
    assert_eq!(at(Level::Bank, RDA), vec![(ACT, 1, 25, false)]);
    assert_eq!(at(Level::Bank, WRA), vec![(ACT, 1, 50, false)]);
    assert_eq!(at(Level::Bank, PRE), vec![(ACT, 1, 16, false)]);
    // nothing below the bank
    assert_eq!(at(Level::Row, ACT), vec![]);
    assert_eq!(at(Level::Column, RD), vec![]);
    // 101 entries in all
    let all = [ACT, PRE, PREA, RD, WR, RDA, WRA, REF, PDE, PDX, SRE, SRX];
    let levels = [
        Level::Channel,
        Level::Rank,
        Level::BankGroup,
        Level::Bank,
        Level::Row,
        Level::Column,
    ];
    let mut count = 0;
    for level in levels {
        for cmd in all {
            count += ddr4.get_timming(&level, &cmd).len();
        }
    }
    assert_eq!(count, 101);
}

#[test]
fn the_scope_is_the_lowest_level_of_a_command() {
    let ddr4 = DDR4::new(&Config::default());
    assert_eq!(ddr4.get_scope(&ACT), Level::Row);
    assert_eq!(ddr4.get_scope(&PRE), Level::Bank);
    for cmd in [RD, WR, RDA, WRA] {
        assert_eq!(ddr4.get_scope(&cmd), Level::Column);
    }
    for cmd in [PREA, REF, PDE, PDX, SRE, SRX] {
        assert_eq!(ddr4.get_scope(&cmd), Level::Rank);
    }
}

#[test]
fn requests_end_with_a_read_or_a_write() {
    assert_eq!(DDR4::get_first_cmd(&ReqType::Read), Command::RD);
    assert_eq!(DDR4::get_first_cmd(&ReqType::Write), Command::WR);
}

#[test]
fn nodes_start_in_the_state_of_their_level() {
    assert_eq!(DDR4::get_start_state(&Level::Channel), State::NoUse);
    assert_eq!(DDR4::get_start_state(&Level::Rank), State::PowerUp);
    assert_eq!(DDR4::get_start_state(&Level::BankGroup), State::NoUse);
    assert_eq!(DDR4::get_start_state(&Level::Bank), State::Closed);
    assert_eq!(DDR4::get_start_state(&Level::Row), State::Closed);
    assert_eq!(DDR4::get_start_state(&Level::Column), State::NoUse);
}

#[test]
fn addresses_decode_by_the_mapping() {
    let ddr4 = DDR4::new(&Config {
        channels: 2,
        ranks: 2,
        ..Config::default()
    });
    // widths: channel 1, rank 1, bank group 2, bank 2, row 15, column 7
    let line: u64 = 0b1_0_11_01_000000000000101_0000011;
    let addr = line << 6 | 0x2a;
    assert_eq!(
        ddr4.decode_addr(addr, &MappingType::ChRaBaRoCo),
        vec![1, 0, 0b11, 0b01, 0b101, 0b11]
    );
    assert_eq!(ddr4.encode_addr(&[1, 0, 0b11, 0b01, 0b101, 0b11], &MappingType::ChRaBaRoCo), line << 6);
    // row, bank, rank, column, channel: the channel takes the lowest slice,
    // then the column, the rank, the bank, the bank group and the row
    let line: u64 = 0b000000000000101_11_01_1_0000011_1;
    assert_eq!(
        ddr4.decode_addr(line << 6, &MappingType::RoBaRaCoCh),
        vec![1, 1, 0b11, 0b01, 0b101, 0b11]
    );
    // column, row, bank, rank, channel
    let line: u64 = 0b0000011_000000000000101_11_01_1_0;
    assert_eq!(
        ddr4.decode_addr(line << 6, &MappingType::CoRoBaRaCh),
        vec![0, 1, 0b11, 0b01, 0b101, 0b11]
    );
    // row, column, bank, rank, channel
    let line: u64 = 0b000000000000101_0000011_11_01_1_0;
    assert_eq!(
        ddr4.decode_addr(line << 6, &MappingType::RoCoBaRaCh),
        vec![0, 1, 0b11, 0b01, 0b101, 0b11]
    );
}

#[test]
fn encoding_undoes_decoding_but_for_the_line_offset() {
    let ddr4 = DDR4::new(&Config { channels: 4, ranks: 2, ..Config::default() });
    let mappings = [
        MappingType::ChRaBaRoCo,
        MappingType::RoBaRaCoCh,
        MappingType::CoRoBaRaCh,
        MappingType::RoCoBaRaCh,
    ];
    // 3 + 26 bits of coordinates and 6 bits of offset
    let top: u64 = 1 << 35;
    let samples = [0, 1, 63, 64, 65, 4096, 0x1234_5678, 0x7_ffff_ffff, top - 64, top - 1];
    for mapping in mappings.iter() {
        for addr in samples {
            let addr_vec = ddr4.decode_addr(addr, mapping);
            assert_eq!(ddr4.encode_addr(&addr_vec, mapping), addr & !0x3f);
        }
        for addr in (0..top).step_by(0x3_0f0f_40) {
            let addr_vec = ddr4.decode_addr(addr, mapping);
            assert_eq!(ddr4.encode_addr(&addr_vec, mapping), addr);
        }
    }
}

#[test]
fn addresses_beyond_the_device_lose_their_high_bits() {
    let ddr4 = DDR4::new(&Config::default());
    // the default device covers 26 bits of coordinates and 6 bits of offset
    let addr: u64 = 1 << 40;
    let addr_vec = ddr4.decode_addr(addr, &MappingType::ChRaBaRoCo);
    assert_eq!(addr_vec, vec![0, 0, 0, 0, 0, 0]);
    assert_eq!(ddr4.encode_addr(&addr_vec, &MappingType::ChRaBaRoCo), 0);
}

#[test]
fn coordinates_join_with_the_channel_first() {
    let ddr4 = DDR4::new(&Config { channels: 2, ranks: 2, ..Config::default() });
    let line: u64 = 0b1_0_11_01_000000000000101_0000011;
    assert_eq!(ddr4.addr_from_addr_vec(&[1, 0, 0b11, 0b01, 0b101, 0b11]), line << 6);
    assert_eq!(ddr4.addr_from_addr_vec(&[0, 0, 0, 0, 0, 0]), 0);
    assert_eq!(ddr4.addr_from_addr_vec(&[0, 0, 0, 0, 0, 1]), 64);
    assert_eq!(ddr4.addr_from_addr_vec(&[0, 0, 0, 0, 1, 0]), 64 << 7);
}

#[test]
fn the_mappings_have_their_slicing_orders() {
    assert_eq!(MappingType::ChRaBaRoCo.get_slice_sequence(true), &[5, 4, 3, 2, 1, 0]);
    assert_eq!(MappingType::RoBaRaCoCh.get_slice_sequence(true), &[0, 5, 1, 3, 2, 4]);
    assert_eq!(MappingType::CoRoBaRaCh.get_slice_sequence(true), &[0, 1, 3, 2, 4, 5]);
    assert_eq!(MappingType::RoCoBaRaCh.get_slice_sequence(true), &[0, 1, 3, 2, 5, 4]);
    assert_eq!(MappingType::ChRaBaRoCo.get_slice_sequence(false), &[4, 3, 2, 1, 0]);
    assert_eq!(MappingType::RoBaRaCoCh.get_slice_sequence(false), &[0, 4, 1, 2, 3]);
    assert_eq!(MappingType::CoRoBaRaCh.get_slice_sequence(false), &[0, 1, 2, 3, 4]);
    assert_eq!(MappingType::RoCoBaRaCh.get_slice_sequence(false), &[0, 1, 2, 4, 3]);
}

#[test]
fn the_default_configuration_is_one_channel_of_4gb_x8_at_2400r() {
    let config = Config::default();
    assert_eq!(config.channels, 1);
    assert_eq!(config.ranks, 1);
    assert_eq!(config.ddr4_org, DDR4Org::DDR4_4Gb_x8);
    assert_eq!(config.ddr4_speed, Speed::DDR4_2400R);
    assert_eq!(config.mapping_type, MappingType::ChRaBaRoCo);
}

#[test]
fn decoding_undoes_encoding() {
    let ddr4 = DDR4::new(&Config { channels: 4, ranks: 2, ..Config::default() });
    let mappings = [
        MappingType::ChRaBaRoCo,
        MappingType::RoBaRaCoCh,
        MappingType::CoRoBaRaCh,
        MappingType::RoCoBaRaCh,
    ];
    // widths: channel 2, rank 1, bank group 2, bank 2, row 15, column 7
    let samples: [[u64; 6]; 6] = [
        [0, 0, 0, 0, 0, 0],
        [3, 1, 3, 3, 0x7fff, 0x7f],
        [1, 0, 2, 1, 0x1234, 0x55],
        [2, 1, 0, 3, 1, 0],
        [0, 0, 0, 0, 0, 1],
        [3, 0, 0, 0, 0x4000, 0x40],
    ];
    for mapping in mappings.iter() {
        for coordinates in samples.iter() {
            let addr = ddr4.encode_addr(coordinates, mapping);
            assert_eq!(addr % 64, 0);
            assert_eq!(ddr4.decode_addr(addr, mapping), coordinates.to_vec());
        }
    }
}
