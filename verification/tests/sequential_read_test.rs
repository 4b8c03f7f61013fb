use ramu_rs::{
    config::Config,
    ddr4::DDR4,
    memory::{MemoryTrait, SimpleMemory},
    request::{ReqType, Request},
};

#[test]
fn sequence_read_test() {
    let config = Config::default();
    let ddr4 = DDR4::new(&config);
    let mut memory = SimpleMemory::new(config, ddr4);
    let mut on_going = 0;
    let mut addr_start = 0;
    loop {
        if let Ok(_) = memory.try_send(Request::new(addr_start, ReqType::Read)) {
            addr_start += 1;
            on_going += 1;
        }
        if let Some(_) = memory.try_recv() {
            on_going -= 1;
        }
        memory.tick();
        if addr_start == 10240 {
            break;
        }
    }
    while on_going != 0 {
        if let Some(_) = memory.try_recv() {
            on_going -= 1;
        }
        memory.tick();
    }
    println!("finish");
    let ramu_cycle = 63589;
    println!("cycle: {}", memory.get_cycle());
    println!("the ramu cycle is {}", ramu_cycle);
    println!(
        "the ratio is cycle/remu_cycle {}",
        memory.get_cycle() as f64 / ramu_cycle as f64
    );
    assert_eq!(memory.pending_requests(), 0);
    // The addresses count bytes, so that 64 requests go to each line: 8192
    // of them to row 0 and 2048 to row 1 of the first bank. The activation
    // comes at cycle 1 and the first read nRCD = 16 later; the reads of a row
    // follow each other at nCCDL = 6; between the rows lie nRTP = 9 to the
    // precharge, nRP = 16 to the activation and nRCD = 16 to the read; the
    // data of the last read comes after nCL + nBL = 20, and the loop ticks
    // once more after it has received it.
    assert_eq!(memory.get_cycle(), 1 + 16 + 6 * 8191 + (9 + 16 + 16) + 6 * 2047 + 20 + 1);
    // no more than two percent over the cycles that Ramulator counts
    assert!(memory.get_cycle() as f64 <= ramu_cycle as f64 * 1.02);
}

#[test]
fn test_read_and_write() {
    let config = Config::default();
    let ddr4 = DDR4::new(&config);
    let mut memory = SimpleMemory::new(config, ddr4);
    let mut on_going = 0;
    let mut addr_start = 0;
    loop {
        if let Ok(_) = memory.try_send(Request::new(
            addr_start,
            if addr_start % 2 == 0 {
                ReqType::Read
            } else {
                ReqType::Write
            },
        )) {
            addr_start += 1;
            on_going += 1;
        }
        if let Some(_) = memory.try_recv() {
            on_going -= 1;
        }
        memory.tick();
        if addr_start == 10240 {
            break;
        }
    }
    while on_going != 0 {
        if let Some(_) = memory.try_recv() {
            on_going -= 1;
        }
        memory.tick();
    }
    println!("finish");
    let ramu_cycle = 64100;
    println!("cycle: {}", memory.get_cycle());
    println!("the ramu cycle is {}", ramu_cycle);
    println!(
        "the ratio is cycle/remu_cycle {}",
        memory.get_cycle() as f64 / ramu_cycle as f64
    );
    assert_eq!(memory.pending_requests(), 0);
    // reads and writes go to one bank group, where nCCDL = 6 cycles lie
    // between two commands of a kind
    assert!(memory.get_cycle() >= 10240 * 6);
    // no more than two percent over the cycles that Ramulator counts
    assert!(memory.get_cycle() as f64 <= ramu_cycle as f64 * 1.02);
}
