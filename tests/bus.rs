use std::cell::RefCell;

use i2c_gpio::{Action, I2cGPIO, Line};

#[derive(Clone, Copy, PartialEq, Debug)]
enum Mode {
    Idle,
    Addr,
    Write,
    Transmit,
}

/// Something seen on the wire by the simulated peer.
#[derive(Clone, Copy, PartialEq, Debug)]
enum Seen {
    Start,
    Stop,
    /// A byte the peer received.
    Byte(u8),
    /// The master's acknowledgement bit after a byte the peer sent.
    MasterAck(u8),
}

/// Two open-drain lines with a peer at one address that stores what is
/// written to it and sends it back when read.
struct Sim {
    actions: Vec<Action>,
    seen: Vec<Seen>,
    /// Data level at each rising clock edge.
    data_at_rise: Vec<u8>,
    master_clock_low: bool,
    master_data_low: bool,
    data_stuck_low: bool,
    clock_stuck_low: bool,
    address: u8,
    mem: Vec<u8>,
    pos: usize,
    mode: Mode,
    count: u8,
    shift: u8,
    read_bit: bool,
    tx: u8,
    master_acked: bool,
    peer_low: bool,
    fail_at: Option<usize>,
}

impl Sim {
    fn new(address: u8) -> Sim {
        Sim {
            actions: Vec::new(),
            seen: Vec::new(),
            data_at_rise: Vec::new(),
            master_clock_low: false,
            master_data_low: false,
            data_stuck_low: false,
            clock_stuck_low: false,
            address,
            mem: Vec::new(),
            pos: 0,
            mode: Mode::Idle,
            count: 0,
            shift: 0,
            read_bit: false,
            tx: 0xFF,
            master_acked: false,
            peer_low: false,
            fail_at: None,
        }
    }

    /// Both lines held low by the master, as between two bytes.
    fn mid_transfer(address: u8) -> Sim {
        let mut s = Sim::new(address);
        s.master_clock_low = true;
        s.master_data_low = true;
        s
    }

    fn clock(&self) -> u8 {
        if self.master_clock_low || self.clock_stuck_low { 0 } else { 1 }
    }

    fn data(&self) -> u8 {
        if self.master_data_low || self.peer_low || self.data_stuck_low { 0 } else { 1 }
    }

    fn load(&mut self) {
        self.tx = if self.pos < self.mem.len() { self.mem[self.pos] } else { 0xFF };
        self.peer_low = (self.tx >> 7) & 1 == 0;
    }

    fn rise(&mut self) {
        let level = self.data();
        self.data_at_rise.push(level);
        match self.mode {
            Mode::Addr | Mode::Write => {
                if self.count < 8 {
                    self.shift = (self.shift << 1) | level;
                }
                self.count += 1;
            }
            Mode::Transmit => {
                if self.count == 8 {
                    self.master_acked = level == 0;
                    self.seen.push(Seen::MasterAck(level));
                }
                self.count += 1;
            }
            Mode::Idle => {}
        }
    }

    fn fall(&mut self) {
        match self.mode {
            Mode::Addr => {
                if self.count == 8 {
                    self.seen.push(Seen::Byte(self.shift));
                    if self.shift >> 1 == self.address {
                        self.peer_low = true;
                        self.read_bit = self.shift & 1 == 1;
                    } else {
                        self.mode = Mode::Idle;
                    }
                } else if self.count == 9 {
                    self.peer_low = false;
                    self.count = 0;
                    self.shift = 0;
                    if self.read_bit {
                        self.mode = Mode::Transmit;
                        self.pos = 0;
                        self.load();
                    } else {
                        self.mode = Mode::Write;
                        self.mem.clear();
                    }
                }
            }
            Mode::Write => {
                if self.count == 8 {
                    self.seen.push(Seen::Byte(self.shift));
                    self.mem.push(self.shift);
                    self.peer_low = true;
                } else if self.count == 9 {
                    self.peer_low = false;
                    self.count = 0;
                    self.shift = 0;
                }
            }
            Mode::Transmit => {
                if self.count < 8 {
                    self.peer_low = (self.tx >> (7 - self.count)) & 1 == 0;
                } else if self.count == 8 {
                    self.peer_low = false;
                } else {
                    self.count = 0;
                    if self.master_acked {
                        self.pos += 1;
                        self.load();
                    } else {
                        self.peer_low = false;
                        self.mode = Mode::Idle;
                    }
                }
            }
            Mode::Idle => {}
        }
    }

    fn set_data(&mut self, low: bool) {
        let before = self.data();
        self.master_data_low = low;
        let after = self.data();
        if self.clock() == 1 && before != after {
            if after == 0 {
                self.seen.push(Seen::Start);
                self.mode = Mode::Addr;
                self.count = 0;
                self.shift = 0;
                self.peer_low = false;
            } else {
                self.seen.push(Seen::Stop);
                self.mode = Mode::Idle;
                self.peer_low = false;
            }
        }
    }

    fn set_clock(&mut self, low: bool) {
        let before = self.clock();
        self.master_clock_low = low;
        let after = self.clock();
        if before == 0 && after == 1 {
            self.rise();
        } else if before == 1 && after == 0 {
            self.fall();
        }
    }

    fn apply(&mut self, a: Action) -> Result<u8, &'static str> {
        if self.fail_at == Some(self.actions.len()) {
            self.actions.push(a);
            return Err("pin failure");
        }
        self.actions.push(a);
        match a {
            Action::Pull(Line::Clock) => self.set_clock(true),
            Action::Release(Line::Clock) => self.set_clock(false),
            Action::Pull(Line::Data) => self.set_data(true),
            Action::Release(Line::Data) => self.set_data(false),
            Action::Sample(Line::Clock) => return Ok(self.clock()),
            Action::Sample(Line::Data) => return Ok(self.data()),
            Action::Delay(_) => {}
        }
        Ok(0)
    }

    fn count_of(&self, a: Action) -> usize {
        self.actions.iter().filter(|x| **x == a).count()
    }

    fn seen_count(&self, s: Seen) -> usize {
        self.seen.iter().filter(|x| **x == s).count()
    }

    fn released_at_end(&self, line: Line) -> bool {
        for a in self.actions.iter().rev() {
            match a {
                Action::Pull(l) if *l == line => return false,
                Action::Release(l) if *l == line => return true,
                _ => {}
            }
        }
        true
    }
}

fn bus(speed: u64) -> I2cGPIO {
    I2cGPIO::new(speed).unwrap()
}

#[test]
fn half_period_follows_frequency() {
    assert_eq!(bus(100000).half_period(), 5);
    assert_eq!(bus(400000).half_period(), 1);
    assert_eq!(bus(1).half_period(), 500000);
    assert_eq!(bus(3).half_period(), 166666);
    assert_eq!(bus(1000000).half_period(), 0);
}

#[test]
fn zero_frequency_is_refused() {
    assert!(I2cGPIO::new(0).is_none());
}

#[test]
fn write_sends_one_framed_transfer() {
    let sim = RefCell::new(Sim::new(0x50));
    let io = |a: Action| sim.borrow_mut().apply(a);
    let mut b = bus(100000);
    assert_eq!(b.write(&io, 0x50, &[0xAB, 0xCD]), Ok(()));
    let s = sim.borrow();
    assert_eq!(s.seen, vec![Seen::Start, Seen::Byte(0xA0), Seen::Byte(0xAB), Seen::Byte(0xCD), Seen::Stop]);
    assert_eq!(s.actions.len(), 306);
    assert_eq!(
        s.actions[..11].to_vec(),
        vec![
            Action::Release(Line::Data),
            Action::Delay(5),
            Action::Sample(Line::Data),
            Action::Release(Line::Clock),
            Action::Delay(5),
            Action::Sample(Line::Clock),
            Action::Delay(5),
            Action::Pull(Line::Data),
            Action::Delay(5),
            Action::Pull(Line::Clock),
            Action::Delay(5),
        ]
    );
    // the two probes, one read-back per 1 bit sent, two per answer read
    assert_eq!(s.count_of(Action::Sample(Line::Data)), 2 + (2 + 5 + 5) + 3 * 2);
    assert!(s.actions.iter().all(|a| match a {
        Action::Delay(d) => *d == 5,
        _ => true,
    }));
    assert!(s.released_at_end(Line::Clock));
    assert!(s.released_at_end(Line::Data));
}

#[test]
fn write_then_read_round_trips() {
    let sim = RefCell::new(Sim::new(0x2A));
    let io = |a: Action| sim.borrow_mut().apply(a);
    let mut b = bus(100000);
    assert_eq!(b.write(&io, 0x2A, &[0x01, 0x7F, 0x80, 0x00, 0xFF]), Ok(()));
    let mut buf = [0u8; 5];
    assert_eq!(b.read(&io, 0x2A, &mut buf), Ok(()));
    assert_eq!(buf, [0x01, 0x7F, 0x80, 0x00, 0xFF]);
}

#[test]
fn read_acknowledges_all_but_last_byte() {
    let sim = RefCell::new(Sim::new(0x50));
    let io = |a: Action| sim.borrow_mut().apply(a);
    let mut b = bus(100000);
    assert_eq!(b.write(&io, 0x50, &[9, 8, 7, 6]), Ok(()));
    let mut buf = [0u8; 4];
    assert_eq!(b.read(&io, 0x50, &mut buf), Ok(()));
    let acks: Vec<Seen> = sim.borrow().seen.iter().filter(|s| matches!(s, Seen::MasterAck(_))).cloned().collect();
    assert_eq!(acks, vec![Seen::MasterAck(0), Seen::MasterAck(0), Seen::MasterAck(0), Seen::MasterAck(1)]);
    assert_eq!(buf, [9, 8, 7, 6]);
}

#[test]
fn read_of_one_byte_is_not_acknowledged() {
    let sim = RefCell::new(Sim::new(0x50));
    let io = |a: Action| sim.borrow_mut().apply(a);
    let mut b = bus(100000);
    assert_eq!(b.write(&io, 0x50, &[0x3C]), Ok(()));
    let mut buf = [0u8; 1];
    assert_eq!(b.read(&io, 0x50, &mut buf), Ok(()));
    let acks: Vec<Seen> = sim.borrow().seen.iter().filter(|s| matches!(s, Seen::MasterAck(_))).cloned().collect();
    assert_eq!(acks, vec![Seen::MasterAck(1)]);
    assert_eq!(buf, [0x3C]);
}

#[test]
fn write_read_uses_a_repeated_start() {
    let sim = RefCell::new(Sim::new(0x50));
    let io = |a: Action| sim.borrow_mut().apply(a);
    let mut b = bus(100000);
    let mut buf = [0u8; 2];
    assert_eq!(b.write_read(&io, 0x50, &[0x01], &mut buf), Ok(()));
    let s = sim.borrow();
    assert_eq!(s.seen_count(Seen::Start), 2);
    assert_eq!(s.seen_count(Seen::Stop), 1);
    assert_eq!(
        s.seen,
        vec![
            Seen::Start,
            Seen::Byte(0xA0),
            Seen::Byte(0x01),
            Seen::Start,
            Seen::Byte(0xA1),
            Seen::MasterAck(0),
            Seen::MasterAck(1),
            Seen::Stop,
        ]
    );
    assert_eq!(buf, [0x01, 0xFF]);
}

#[test]
fn read_byte_sends_nack_when_asked() {
    let sim = RefCell::new(Sim::mid_transfer(0x50));
    let io = |a: Action| sim.borrow_mut().apply(a);
    let mut b = bus(100000);
    assert_eq!(b.read_byte(&io, false), Ok(0xFF));
    let s = sim.borrow();
    assert_eq!(s.data_at_rise.len(), 9);
    assert_eq!(s.data_at_rise[8], 1);
}

#[test]
fn read_byte_sends_ack_when_asked() {
    let sim = RefCell::new(Sim::mid_transfer(0x50));
    let io = |a: Action| sim.borrow_mut().apply(a);
    let mut b = bus(100000);
    assert_eq!(b.read_byte(&io, true), Ok(0xFF));
    let s = sim.borrow();
    assert_eq!(s.data_at_rise.len(), 9);
    assert_eq!(s.data_at_rise[8], 0);
}

#[test]
fn write_byte_sends_msb_first_and_returns_answer() {
    let sim = RefCell::new(Sim::mid_transfer(0x50));
    let io = |a: Action| sim.borrow_mut().apply(a);
    let mut b = bus(100000);
    // nobody answers: the released data line reads as no acknowledgement
    assert_eq!(b.write_byte(&io, 0b1011_0010), Ok(1));
    assert_eq!(sim.borrow().data_at_rise, vec![1, 0, 1, 1, 0, 0, 1, 0, 1]);
}

#[test]
fn write_bit_and_read_bit_actions() {
    let sim = RefCell::new(Sim::new(0x50));
    let io = |a: Action| sim.borrow_mut().apply(a);
    let mut b = bus(50000);
    assert_eq!(b.write_bit(&io, 0), Ok(()));
    assert_eq!(
        sim.borrow().actions,
        vec![
            Action::Pull(Line::Data),
            Action::Delay(10),
            Action::Release(Line::Clock),
            Action::Delay(10),
            Action::Sample(Line::Clock),
            Action::Delay(10),
            Action::Pull(Line::Clock),
            Action::Delay(10),
            Action::Pull(Line::Data),
            Action::Delay(10),
        ]
    );
    sim.borrow_mut().actions.clear();
    assert_eq!(b.read_bit(&io), Ok(1));
    assert_eq!(
        sim.borrow().actions,
        vec![
            Action::Release(Line::Data),
            Action::Delay(10),
            Action::Sample(Line::Data),
            Action::Release(Line::Clock),
            Action::Delay(10),
            Action::Sample(Line::Clock),
            Action::Delay(10),
            Action::Sample(Line::Data),
            Action::Pull(Line::Clock),
            Action::Delay(10),
            Action::Pull(Line::Data),
            Action::Delay(10),
        ]
    );
}

#[test]
fn stretched_clock_gets_one_long_wait() {
    let sim = RefCell::new(Sim::new(0x50));
    sim.borrow_mut().clock_stuck_low = true;
    let io = |a: Action| sim.borrow_mut().apply(a);
    let mut b = bus(100000);
    assert_eq!(b.write_bit(&io, 1), Ok(()));
    assert_eq!(sim.borrow().count_of(Action::Delay(2000000)), 1);
}

#[test]
fn start_on_idle_bus_does_not_recover() {
    let sim = RefCell::new(Sim::new(0x50));
    let io = |a: Action| sim.borrow_mut().apply(a);
    let mut b = bus(100000);
    assert_eq!(b.start(&io), Ok(()));
    let s = sim.borrow();
    assert_eq!(s.actions.len(), 11);
    assert_eq!(s.count_of(Action::Delay(10000)), 0);
    assert_eq!(s.seen, vec![Seen::Start]);
}

#[test]
fn start_on_held_data_line_recovers_first() {
    let sim = RefCell::new(Sim::new(0x50));
    sim.borrow_mut().data_stuck_low = true;
    let io = |a: Action| sim.borrow_mut().apply(a);
    let mut b = bus(100000);
    assert_eq!(b.start(&io), Ok(()));
    let s = sim.borrow();
    // 100 bursts of 10, one pull before the closing stop, one for the start
    assert_eq!(s.count_of(Action::Pull(Line::Clock)), 1002);
    assert_eq!(s.count_of(Action::Delay(10000)), 100);
    let first_pause = s.actions.iter().position(|a| *a == Action::Delay(10000)).unwrap();
    assert_eq!(s.actions[..first_pause].iter().filter(|a| **a == Action::Pull(Line::Clock)).count(), 10);
    // the start's own clock pull is the last action but its delay
    assert_eq!(s.actions[s.actions.len() - 2], Action::Pull(Line::Clock));
}

#[test]
fn reset_gives_up_after_all_bursts_and_releases_both_lines() {
    let sim = RefCell::new(Sim::new(0x50));
    sim.borrow_mut().data_stuck_low = true;
    let io = |a: Action| sim.borrow_mut().apply(a);
    let mut b = bus(100000);
    assert_eq!(b.reset(&io), Ok(()));
    let s = sim.borrow();
    assert_eq!(s.count_of(Action::Pull(Line::Clock)), 1001);
    assert!(s.released_at_end(Line::Clock));
    assert!(s.released_at_end(Line::Data));
}

#[test]
fn reset_stops_bursts_once_data_line_is_free() {
    let sim = RefCell::new(Sim::new(0x50));
    let io = |a: Action| sim.borrow_mut().apply(a);
    let mut b = bus(100000);
    assert_eq!(b.reset(&io), Ok(()));
    let s = sim.borrow();
    assert_eq!(s.count_of(Action::Pull(Line::Clock)), 11);
    assert_eq!(s.count_of(Action::Delay(10000)), 1);
    assert!(s.released_at_end(Line::Clock));
    assert!(s.released_at_end(Line::Data));
}

#[test]
fn stop_releases_both_lines() {
    let sim = RefCell::new(Sim::new(0x50));
    let io = |a: Action| sim.borrow_mut().apply(a);
    let mut b = bus(100000);
    assert_eq!(b.start(&io), Ok(()));
    assert_eq!(b.stop(&io), Ok(()));
    let s = sim.borrow();
    assert_eq!(s.seen, vec![Seen::Start, Seen::Stop]);
    assert!(s.released_at_end(Line::Clock));
    assert!(s.released_at_end(Line::Data));
    assert_eq!(s.count_of(Action::Delay(10000)), 0);
}

#[test]
fn pin_failure_aborts_the_transfer() {
    let sim = RefCell::new(Sim::new(0x50));
    sim.borrow_mut().fail_at = Some(20);
    let io = |a: Action| sim.borrow_mut().apply(a);
    let mut b = bus(100000);
    assert_eq!(b.write(&io, 0x50, &[1, 2]), Err("pin failure"));
    assert_eq!(sim.borrow().actions.len(), 21);
}

#[test]
fn missing_acknowledgement_does_not_stop_a_write() {
    let sim = RefCell::new(Sim::new(0x11));
    let io = |a: Action| sim.borrow_mut().apply(a);
    let mut b = bus(100000);
    assert_eq!(b.write(&io, 0x50, &[0xAB, 0xCD]), Ok(()));
    assert_eq!(sim.borrow().actions.len(), 306);
}
