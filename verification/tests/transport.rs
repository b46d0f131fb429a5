use mfrc522_driver::bus::{Bus, BusFault};
use mfrc522_driver::consts::{PCDErrorCode, PCDRegister};
use mfrc522_driver::tif;
use mfrc522_driver::transport::MFRC522;

/// A bus that records what is clocked out and answers from a fixed list.
struct Recorder {
    log: Vec<String>,
    answers: Vec<u8>,
    next: usize,
    fail_at: Option<usize>,
    steps: usize,
}

impl Recorder {
    fn new(answers: Vec<u8>) -> Self {
        Recorder { log: Vec::new(), answers, next: 0, fail_at: None, steps: 0 }
    }

    fn step(&mut self) -> bool {
        let ok = self.fail_at != Some(self.steps);
        self.steps += 1;
        ok
    }
}

impl Bus for Recorder {
    fn select(&mut self) -> Result<(), BusFault> {
        self.log.push(format!("low"));
        if self.step() { Ok(()) } else { Err(BusFault) }
    }

    fn release(&mut self) -> Result<(), BusFault> {
        self.log.push(format!("high"));
        if self.step() { Ok(()) } else { Err(BusFault) }
    }

    fn exchange(&mut self, out: u8) -> Result<u8, BusFault> {
        self.log.push(format!("{:02x}", out));
        if !self.step() {
            return Err(BusFault);
        }
        let v = if self.next < self.answers.len() { self.answers[self.next] } else { 0 };
        self.next += 1;
        Ok(v)
    }

    fn delay_ms(&mut self, ms: u64) {
        self.log.push(format!("wait {}", ms));
    }
}

#[test]
fn tif_picks_by_condition() {
    assert_eq!(tif(true, 1, 2), 1);
    assert_eq!(tif(false, 1, 2), 2);
}

#[test]
fn write_reg_clocks_address_then_value() {
    let mut dev = MFRC522::new(Recorder::new(vec![]));
    assert_eq!(dev.write_reg(PCDRegister::CommandReg, 0x0F), Ok(()));
    let bus = dev.into_bus();
    assert_eq!(bus.log, vec!["low", "02", "0f", "high"]);
}

#[test]
fn read_reg_returns_the_lagging_answer() {
    let mut dev = MFRC522::new(Recorder::new(vec![0xAA, 0x92]));
    assert_eq!(dev.read_reg(PCDRegister::VersionReg), Ok(0x92));
    let bus = dev.into_bus();
    assert_eq!(bus.log, vec!["low", "ee", "00", "high"]);
}

#[test]
fn write_reg_releases_after_a_fault() {
    let mut bus = Recorder::new(vec![]);
    bus.fail_at = Some(1);
    let mut dev = MFRC522::new(bus);
    assert_eq!(dev.write_reg(PCDRegister::CommandReg, 0x0F), Err(PCDErrorCode::Transport));
    let bus = dev.into_bus();
    assert_eq!(bus.log, vec!["low", "02", "high"]);
}
