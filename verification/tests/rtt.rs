//! The RTT channel on a sparse memory.

use std::collections::HashMap;

use tracebridge::config::{Config, Interval};
use tracebridge::rtt::{
    parse_address, run_time, settings, BlockSource, Memory, RttArgs, RttChannel, RttTerminal,
    DESC_BUFFER, DESC_RD_OFF, DESC_SIZE, DESC_WR_OFF, DOWN_DESCRIPTOR, UP_DESCRIPTOR,
};
use tracebridge::t32rcl::address::Address;
use tracebridge::t32rcl::error::Error;

const CB: u64 = 0x2000_0000;
const UP_BUFFER: u32 = 0x2000_1000;
const DOWN_BUFFER: u32 = 0x2000_2000;

/// Sparse little-endian memory that logs every access.
#[derive(Default)]
struct FakeMemory {
    bytes: HashMap<u64, u8>,
    log: Vec<String>,
    fail: bool,
}

impl FakeMemory {
    fn put(&mut self, address: u64, data: &[u8]) {
        for (i, byte) in data.iter().enumerate() {
            self.bytes.insert(address + i as u64, *byte);
        }
    }

    fn get(&self, address: u64, length: usize) -> Vec<u8> {
        (0..length)
            .map(|i| *self.bytes.get(&(address + i as u64)).unwrap_or(&0))
            .collect()
    }

    fn word(&self, address: u64) -> u32 {
        u32::from_le_bytes(self.get(address, 4).try_into().unwrap())
    }

    fn descriptor(&mut self, at: u64, buffer: u32, size: u32, write: u32, read: u32) {
        for (i, value) in [buffer, size, write, read].into_iter().enumerate() {
            self.put(at + DESC_BUFFER + 4 * i as u64, &value.to_le_bytes());
        }
    }

    /// An initialized control block with a 16-byte up and an 8-byte down buffer.
    fn initialized() -> FakeMemory {
        let mut memory = FakeMemory::default();
        memory.put(CB, b"SEGGER RTT\0\0\0\0\0\0");
        memory.descriptor(CB + UP_DESCRIPTOR, UP_BUFFER, 16, 0, 0);
        memory.descriptor(CB + DOWN_DESCRIPTOR, DOWN_BUFFER, 8, 0, 0);
        memory
    }
}

impl Memory for FakeMemory {
    fn read(&mut self, address: u64, length: usize) -> Result<Vec<u8>, Error> {
        if self.fail {
            return Err(Error::Timeout);
        }
        self.log.push(format!("read {address:#x} {length}"));
        Ok(self.get(address, length))
    }
    fn write(&mut self, address: u64, data: &[u8]) -> Result<(), Error> {
        self.log.push(format!("write {address:#x} {data:?}"));
        self.put(address, data);
        Ok(())
    }
    fn write_u32(&mut self, address: u64, value: u32) -> Result<(), Error> {
        self.log.push(format!("write_u32 {address:#x} {value}"));
        self.put(address, &value.to_le_bytes());
        Ok(())
    }
}

const UP_RD: u64 = CB + UP_DESCRIPTOR + DESC_RD_OFF;
const UP_WR: u64 = CB + UP_DESCRIPTOR + DESC_WR_OFF;
const DOWN_WR: u64 = CB + DOWN_DESCRIPTOR + DESC_WR_OFF;
const DOWN_RD: u64 = CB + DOWN_DESCRIPTOR + DESC_RD_OFF;

#[test]
fn offsets_match_the_32_bit_layout() {
    assert_eq!(DOWN_DESCRIPTOR, UP_DESCRIPTOR + 24);
    assert_eq!(DESC_SIZE, DESC_BUFFER + 4);
}

#[test]
fn uninitialized_control_block_waits() {
    let mut memory = FakeMemory::default();
    let mut channel = RttChannel::new(CB);
    assert!(channel.read_up(&mut memory).unwrap().is_empty());
    assert!(!channel.initialized);
    assert_eq!(channel.write_down(&mut memory, b"x").unwrap(), 0);
    assert!(memory.log.iter().all(|entry| entry.starts_with("read")));
    // Initialization is picked up on the next poll.
    memory = FakeMemory::initialized();
    memory.put(u64::from(UP_BUFFER), b"hi");
    memory.put(UP_WR, &2u32.to_le_bytes());
    assert_eq!(channel.read_up(&mut memory).unwrap(), b"hi");
    assert!(channel.initialized);
}

#[test]
fn empty_up_buffer_writes_nothing() {
    let mut memory = FakeMemory::initialized();
    let mut channel = RttChannel::new(CB);
    assert!(channel.read_up(&mut memory).unwrap().is_empty());
    assert!(!memory.log.iter().any(|entry| entry.starts_with("write")));
}

#[test]
fn contiguous_up_read_advances_rd_off() {
    let mut memory = FakeMemory::initialized();
    memory.put(u64::from(UP_BUFFER) + 3, b"hello");
    memory.put(UP_RD, &3u32.to_le_bytes());
    memory.put(UP_WR, &8u32.to_le_bytes());
    let mut channel = RttChannel::new(CB);
    assert_eq!(channel.read_up(&mut memory).unwrap(), b"hello");
    assert_eq!(memory.word(UP_RD), 8);
}

#[test]
fn wrapped_up_read_uses_two_copies() {
    let mut memory = FakeMemory::initialized();
    memory.put(u64::from(UP_BUFFER) + 13, b"abc");
    memory.put(u64::from(UP_BUFFER), b"de");
    memory.put(UP_RD, &13u32.to_le_bytes());
    memory.put(UP_WR, &2u32.to_le_bytes());
    let mut channel = RttChannel::new(CB);
    assert_eq!(channel.read_up(&mut memory).unwrap(), b"abcde");
    assert_eq!(memory.word(UP_RD), 2);
    let reads: Vec<&String> = memory
        .log
        .iter()
        .filter(|entry| {
            entry.starts_with(&format!("read {UP_BUFFER:#x}"))
                || entry.starts_with(&format!("read {:#x}", u64::from(UP_BUFFER) + 13))
        })
        .collect();
    assert_eq!(
        reads,
        [
            &format!("read {:#x} 3", u64::from(UP_BUFFER) + 13),
            &format!("read {UP_BUFFER:#x} 2")
        ]
    );
}

#[test]
fn wrapped_up_read_ending_at_zero_needs_one_copy() {
    let mut memory = FakeMemory::initialized();
    memory.put(u64::from(UP_BUFFER) + 14, b"yz");
    memory.put(UP_RD, &14u32.to_le_bytes());
    memory.put(UP_WR, &0u32.to_le_bytes());
    let mut channel = RttChannel::new(CB);
    assert_eq!(channel.read_up(&mut memory).unwrap(), b"yz");
    assert_eq!(memory.word(UP_RD), 0);
}

#[test]
fn invalid_descriptor_resets_initialization() {
    for (buffer, size, write, read) in [
        (0, 16, 0, 1),
        (UP_BUFFER, 1, 0, 0),
        (UP_BUFFER, 16, 16, 0),
        (UP_BUFFER, 16, 0, 16),
    ] {
        let mut memory = FakeMemory::initialized();
        memory.descriptor(CB + UP_DESCRIPTOR, buffer, size, write, read);
        let mut channel = RttChannel::new(CB);
        assert!(channel.read_up(&mut memory).unwrap().is_empty());
        assert!(!channel.initialized);
    }
}

#[test]
fn down_write_publishes_wr_off_last() {
    let mut memory = FakeMemory::initialized();
    let mut channel = RttChannel::new(CB);
    assert_eq!(channel.write_down(&mut memory, b"ls\n").unwrap(), 3);
    assert_eq!(memory.get(u64::from(DOWN_BUFFER), 3), b"ls\n");
    assert_eq!(memory.word(DOWN_WR), 3);
    assert!(memory
        .log
        .last()
        .unwrap()
        .starts_with(&format!("write_u32 {DOWN_WR:#x} 3")));
}

#[test]
fn wrapped_down_write_uses_two_copies() {
    let mut memory = FakeMemory::initialized();
    memory.put(DOWN_WR, &6u32.to_le_bytes());
    memory.put(DOWN_RD, &5u32.to_le_bytes());
    let mut channel = RttChannel::new(CB);
    // size 8, WrOff 6, RdOff 5: 6 bytes free.
    assert_eq!(channel.write_down(&mut memory, b"abcdefgh").unwrap(), 6);
    assert_eq!(memory.get(u64::from(DOWN_BUFFER) + 6, 2), b"ab");
    assert_eq!(memory.get(u64::from(DOWN_BUFFER), 4), b"cdef");
    assert_eq!(memory.word(DOWN_WR), 4);
    let writes: Vec<&String> = memory
        .log
        .iter()
        .filter(|e| e.starts_with("write"))
        .collect();
    assert_eq!(writes.len(), 3);
    assert!(writes[2].starts_with("write_u32"));
}

#[test]
fn full_down_buffer_accepts_nothing() {
    let mut memory = FakeMemory::initialized();
    memory.put(DOWN_WR, &4u32.to_le_bytes());
    memory.put(DOWN_RD, &5u32.to_le_bytes());
    let mut channel = RttChannel::new(CB);
    assert_eq!(channel.write_down(&mut memory, b"x").unwrap(), 0);
    assert!(!memory.log.iter().any(|entry| entry.starts_with("write")));
}

#[test]
fn empty_input_touches_no_memory() {
    let mut memory = FakeMemory::initialized();
    let mut channel = RttChannel::new(CB);
    assert_eq!(channel.write_down(&mut memory, b"").unwrap(), 0);
    assert!(memory.log.is_empty());
}

#[test]
fn memory_errors_propagate() {
    let mut memory = FakeMemory::initialized();
    memory.fail = true;
    let mut channel = RttChannel::new(CB);
    assert!(channel.read_up(&mut memory).is_err());
}

/// What is written down and read back by the target, in a ring that is driven
/// round several times, is what was sent.
#[test]
fn every_offset_pair_moves_the_bytes() {
    for size in 2..=9u32 {
        for write in 0..size {
            for read in 0..size {
                let mut memory = FakeMemory::initialized();
                memory.descriptor(CB + DOWN_DESCRIPTOR, DOWN_BUFFER, size, write, read);
                let mut channel = RttChannel::new(CB);
                let data: Vec<u8> = (1..=12).collect();
                let sent = channel.write_down(&mut memory, &data).unwrap();
                let used = (write + size - read) % size;
                assert_eq!(sent as u32, (size - 1 - used).min(12));
                for i in 0..sent as u32 {
                    let at = u64::from(DOWN_BUFFER) + u64::from((write + i) % size);
                    assert_eq!(memory.get(at, 1), [i as u8 + 1]);
                }
                assert_eq!(memory.word(DOWN_WR), (write + sent as u32) % size);

                let mut memory = FakeMemory::initialized();
                memory.descriptor(CB + UP_DESCRIPTOR, UP_BUFFER, size, write, read);
                for i in 0..size {
                    memory.put(u64::from(UP_BUFFER) + u64::from(i), &[i as u8]);
                }
                let output = channel.read_up(&mut memory).unwrap();
                let expected: Vec<u8> = (0..used).map(|i| ((read + i) % size) as u8).collect();
                assert_eq!(output, expected);
                assert_eq!(memory.word(UP_RD), write);
            }
        }
    }
}

fn config() -> Config {
    Config {
        config_file: "/p/trace32.toml".into(),
        config_dir: "/p".into(),
        run_dir: "/p/.tracebridge".into(),
        project_dir: "/p".into(),
        program: "demo".into(),
        elf: "/p/demo.elf".into(),
        cpu: "CPU".into(),
        cores: "1.".into(),
        mem_access: String::new(),
        jtag_clock: String::new(),
        dual_port: String::new(),
        rtos_config: String::new(),
        rtos_menu: String::new(),
        rtos_show_tasks: false,
        flash_chip: String::new(),
        flash_script: String::new(),
        flash_args: Vec::new(),
        t32_sys: "/p".into(),
        t32_host: "test".into(),
        t32_binary: "/p/powerview".into(),
        t32_config: "/p/config.t32".into(),
        debug_adapter: "/p/adapter".into(),
        rcl_port: 20000,
        dap_port: 58870,
        dap_backend_port: 58871,
        dap_backend_timeout: 1,
        operation_timeout: 1,
        rtt_symbol: "_SEGGER_RTT".into(),
        rtt_control_block_address: None,
        rtt_poll_interval: Interval::Bits(0.02f64.to_bits()),
    }
}

fn args() -> RttArgs {
    RttArgs {
        program: None,
        symbol: None,
        control_block: None,
        node: "localhost".into(),
        port: None,
        poll: None,
        replay: false,
        output_only: false,
    }
}

#[test]
fn arguments_default_to_the_configuration() {
    let mut given = args();
    given.control_block = Some(parse_address("0x20000400").unwrap());
    assert_eq!(given.control_block, Some(0x2000_0400));
    let chosen = settings(&config(), &given).unwrap();
    assert_eq!(chosen.port, 20000);
    assert_eq!(chosen.program, "demo");
    assert_eq!(chosen.symbol, "_SEGGER_RTT");
    assert_eq!(
        chosen.block_source().unwrap(),
        BlockSource::Known(0x2000_0400)
    );
    assert_eq!(parse_address("zz").unwrap_err(), "invalid address: zz");
    assert_eq!(parse_address("-1").unwrap_err(), "invalid address: -1");
}

#[test]
fn control_block_is_looked_up_by_symbol() {
    let chosen = settings(&config(), &args()).unwrap();
    assert_eq!(
        chosen.block_source().unwrap(),
        BlockSource::Symbol("\\\\demo\\Global\\_SEGGER_RTT".into())
    );
    assert_eq!(
        chosen.unresolved(&Error::Timeout).0,
        "cannot resolve _SEGGER_RTT in 'demo' (timed out)\nRun 'tracebridge load' first, or pass --cb 0x<address>."
    );
    assert_eq!(
        chosen.unconnected("localhost", &Error::Timeout).0,
        "cannot connect to TRACE32 at localhost:20000 (timed out)\nCheck the RCL=NETTCP / PORT= section of your config.t32."
    );
    assert_eq!(
        chosen.banner(0x2000_0abc),
        "TRACE32 RTT: _SEGGER_RTT @ 0x20000ABC; Ctrl-C to stop"
    );
    let mut given = args();
    given.program = Some(String::new());
    assert_eq!(
        settings(&config(), &given)
            .unwrap()
            .block_source()
            .unwrap_err()
            .0,
        "project.program is empty and no --cb was given"
    );
    assert_eq!(run_time(16), Address::new(Some("E"), 16));
}

#[test]
fn poll_period_must_be_positive_and_finite() {
    for (poll, usable) in [
        (Interval::Whole(1), true),
        (Interval::Whole(0), false),
        (Interval::Whole(-1), false),
        (Interval::Bits(0.5f64.to_bits()), true),
        (Interval::Bits(f64::MIN_POSITIVE.to_bits()), true),
        (Interval::Bits(0.0f64.to_bits()), false),
        (Interval::Bits((-0.5f64).to_bits()), false),
        (Interval::Bits(f64::INFINITY.to_bits()), false),
        (Interval::Bits(f64::NAN.to_bits()), false),
    ] {
        let mut given = args();
        given.poll = Some(poll);
        let result = settings(&config(), &given);
        assert_eq!(result.is_ok(), usable, "{poll:?}");
        if let Err(error) = result {
            assert_eq!(error.0, "--poll must be positive");
        }
    }
}

#[test]
fn terminal_keeps_what_does_not_fit() {
    let mut memory = FakeMemory::initialized();
    let mut terminal = RttTerminal::new(RttChannel::new(CB));
    terminal
        .send_input(&mut memory, b"ab\x7fdefghij")
        .unwrap();
    assert_eq!(memory.get(u64::from(DOWN_BUFFER), 7), b"ab\x08defg");
    assert_eq!(terminal.pending_input, b"hij");
    memory.put(DOWN_RD, &7u32.to_le_bytes());
    terminal.send_input(&mut memory, b"").unwrap();
    assert!(terminal.pending_input.is_empty());
    memory.put(u64::from(UP_BUFFER), b"out");
    memory.put(UP_WR, &3u32.to_le_bytes());
    assert_eq!(terminal.take_output(&mut memory).unwrap(), b"out");
}

#[test]
fn repeated_errors_are_reported_now_and_then() {
    let mut terminal = RttTerminal::new(RttChannel {
        control_block: CB,
        initialized: true,
    });
    let mut reported = Vec::new();
    for count in 1..=600u64 {
        if let Some(line) = terminal.failed(&Error::Timeout) {
            assert_eq!(
                line,
                format!("\n[rtt] run-time memory access failed x{count}: timed out")
            );
            reported.push(count);
        }
    }
    assert_eq!(reported, [5, 50, 300, 600]);
    assert!(!terminal.channel.initialized);
    terminal.succeeded();
    assert_eq!(terminal.consecutive_errors, 0);
}
