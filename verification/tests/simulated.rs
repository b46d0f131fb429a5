use mfrc522_driver::bus::{Bus, BusFault};
use mfrc522_driver::consts::{PCDCommand, PCDErrorCode, PCDRegister, PICCCommand, Uid, UidSize};
use mfrc522_driver::transport::MFRC522;

/// The checksum that cards and reader use, low byte first.
fn crc_a(data: &[u8]) -> [u8; 2] {
    let mut crc: u16 = 0x6363;
    for &b in data {
        let mut ch = b ^ (crc & 0xFF) as u8;
        ch ^= ch << 4;
        crc = (crc >> 8) ^ ((ch as u16) << 8) ^ ((ch as u16) << 3) ^ ((ch as u16) >> 4);
    }
    [(crc & 0xFF) as u8, (crc >> 8) as u8]
}

/// A card in the field of the simulated chip.
struct Card {
    uid: Vec<u8>,
    sak: u8,
    /// Answer every select with the cascade bit set.
    always_cascade: bool,
    /// Spoil the checksum of the select acknowledge.
    bad_sak_crc: bool,
    /// Answer a select with two bytes only.
    short_sak: bool,
    halted: bool,
}

impl Card {
    fn new(uid: &[u8], sak: u8) -> Card {
        Card {
            uid: uid.to_vec(),
            sak,
            always_cascade: false,
            bad_sak_crc: false,
            short_sak: false,
            halted: false,
        }
    }

    /// The four bytes that the card presents at a cascade level, and whether
    /// the level is its last.
    fn level(&self, level: usize) -> Option<([u8; 4], bool)> {
        let u = &self.uid;
        match (u.len(), level) {
            (4, 1) => Some(([u[0], u[1], u[2], u[3]], true)),
            (7, 1) | (10, 1) => Some(([0x88, u[0], u[1], u[2]], false)),
            (7, 2) => Some(([u[3], u[4], u[5], u[6]], true)),
            (10, 2) => Some(([0x88, u[3], u[4], u[5]], false)),
            (10, 3) => Some(([u[6], u[7], u[8], u[9]], true)),
            _ => None,
        }
    }
}

/// A register file with the behaviour of the reader chip behind the
/// byte-exchange link: address bytes, the one-exchange lag of the answers,
/// the buffer, the checksum coprocessor, the reset and a card.
struct SimChip {
    regs: [u8; 64],
    fifo: Vec<u8>,
    low: bool,
    addr: Option<u8>,
    latched: u8,
    power_down_reads: u8,
    power_down_left: u8,
    card: Option<Card>,
    atqa: Vec<u8>,
    atqa_last_bits: u8,
    collide_at: Option<u8>,
    coll_reg_override: Option<u8>,
    error_bits: u8,
    crc_never_ready: bool,
    irq_never: bool,
    fail_exchange_at: Option<usize>,
    exchanges: usize,
    transceives: usize,
    delays: Vec<u64>,
    writes: Vec<(u8, u8)>,
    reads: Vec<u8>,
    left_low: bool,
}

impl SimChip {
    fn new() -> SimChip {
        let mut regs = [0u8; 64];
        regs[PCDRegister::TxControlReg as usize] = 0x80;
        regs[PCDRegister::VersionReg as usize] = 0x92;
        SimChip {
            regs,
            fifo: Vec::new(),
            low: false,
            addr: None,
            latched: 0,
            power_down_reads: 0,
            power_down_left: 0,
            card: None,
            atqa: vec![0x04, 0x00],
            atqa_last_bits: 0,
            collide_at: None,
            coll_reg_override: None,
            error_bits: 0,
            crc_never_ready: false,
            irq_never: false,
            fail_exchange_at: None,
            exchanges: 0,
            transceives: 0,
            delays: Vec::new(),
            writes: Vec::new(),
            reads: Vec::new(),
            left_low: false,
        }
    }

    fn with_card(uid: &[u8], sak: u8) -> SimChip {
        let mut chip = SimChip::new();
        chip.card = Some(Card::new(uid, sak));
        chip
    }

    fn read(&mut self, reg: u8) -> u8 {
        self.reads.push(reg);
        if reg == PCDRegister::CommandReg {
            if self.power_down_left > 0 {
                self.power_down_left -= 1;
                return self.regs[reg as usize] | 0x10;
            }
            return self.regs[reg as usize] & !0x10;
        }
        if reg == PCDRegister::FIFOLevelReg {
            return self.fifo.len() as u8;
        }
        if reg == PCDRegister::FIFODataReg {
            if self.fifo.is_empty() {
                return 0;
            }
            return self.fifo.remove(0);
        }
        if reg == PCDRegister::BitFramingReg {
            return self.regs[reg as usize] & 0x7F;
        }
        self.regs[reg as usize]
    }

    fn write(&mut self, reg: u8, val: u8) {
        self.writes.push((reg, val));
        if reg == PCDRegister::CommandReg {
            self.regs[reg as usize] = val;
            self.command(val & 0x0F);
        } else if reg == PCDRegister::FIFOLevelReg {
            if val & 0x80 != 0 {
                self.fifo.clear();
            }
        } else if reg == PCDRegister::FIFODataReg {
            if self.fifo.len() < 64 {
                self.fifo.push(val);
            }
        } else if reg == PCDRegister::ComIrqReg || reg == PCDRegister::DivIrqReg {
            if val & 0x80 != 0 {
                self.regs[reg as usize] |= val & 0x7F;
            } else {
                self.regs[reg as usize] &= !val;
            }
        } else if reg == PCDRegister::BitFramingReg {
            self.regs[reg as usize] = val;
            if val & 0x80 != 0 && self.regs[PCDRegister::CommandReg as usize] & 0x0F
                == PCDCommand::Transceive
            {
                self.transceive();
            }
        } else {
            self.regs[reg as usize] = val;
        }
    }

    fn command(&mut self, cmd: u8) {
        if cmd == PCDCommand::SoftReset {
            let version = self.regs[PCDRegister::VersionReg as usize];
            self.regs = [0u8; 64];
            self.regs[PCDRegister::TxControlReg as usize] = 0x80;
            self.regs[PCDRegister::VersionReg as usize] = version;
            self.fifo.clear();
            self.power_down_left = self.power_down_reads;
        } else if cmd == PCDCommand::Mem {
            self.fifo.clear();
        } else if cmd == PCDCommand::CalcCRC {
            if self.regs[PCDRegister::AutoTestReg as usize] & 0x0F == 0x09 {
                self.fifo = (0..64u8).map(|i| i.wrapping_mul(7).wrapping_add(3)).collect();
            } else if !self.crc_never_ready {
                let crc = crc_a(&self.fifo);
                self.fifo.clear();
                self.regs[PCDRegister::CRCResultRegL as usize] = crc[0];
                self.regs[PCDRegister::CRCResultRegH as usize] = crc[1];
                self.regs[PCDRegister::DivIrqReg as usize] |= 0x04;
            }
        }
    }

    fn answer(&mut self, bytes: Vec<u8>, last_bits: u8) {
        self.fifo = bytes;
        self.regs[PCDRegister::ControlReg as usize] = last_bits & 0x07;
        self.regs[PCDRegister::ComIrqReg as usize] |= 0x30;
    }

    fn silence(&mut self) {
        self.fifo.clear();
        self.regs[PCDRegister::ComIrqReg as usize] |= 0x01;
    }

    fn transceive(&mut self) {
        self.transceives += 1;
        let frame = self.fifo.clone();
        let framing = self.regs[PCDRegister::BitFramingReg as usize];
        let tx_last_bits = framing & 0x07;
        self.regs[PCDRegister::ErrorReg as usize] = self.error_bits;
        if self.irq_never {
            self.fifo.clear();
            return;
        }
        let halted = match &self.card {
            Some(c) => c.halted,
            None => true,
        };
        if frame.is_empty() || self.card.is_none() {
            self.silence();
            return;
        }
        if frame.len() == 1 && tx_last_bits == 7 {
            let wakes = frame[0] == PICCCommand::PICC_CMD_WUPA
                || (frame[0] == PICCCommand::PICC_CMD_REQA && !halted);
            if wakes {
                if let Some(c) = &mut self.card {
                    c.halted = false;
                }
                let atqa = self.atqa.clone();
                let bits = self.atqa_last_bits;
                self.answer(atqa, bits);
            } else {
                self.silence();
            }
            return;
        }
        if frame.len() == 4 && frame[0] == PICCCommand::PICC_CMD_HLTA && frame[1] == 0 {
            if crc_a(&frame[..2]) == [frame[2], frame[3]] {
                if let Some(c) = &mut self.card {
                    c.halted = true;
                }
            }
            self.silence();
            return;
        }
        let level = match frame[0] {
            0x93 => 1,
            0x95 => 2,
            0x97 => 3,
            _ => {
                self.silence();
                return;
            }
        };
        if frame.len() < 2 {
            self.silence();
            return;
        }
        let (always_cascade, bad_sak_crc, short_sak, sak, shown) = {
            let c = self.card.as_ref().unwrap();
            (c.always_cascade, c.bad_sak_crc, c.short_sak, c.sak, c.level(level))
        };
        let (cl, last) = match shown {
            Some(x) => x,
            None => {
                if always_cascade {
                    ([0x88, 0x01, 0x02, 0x03], false)
                } else {
                    self.silence();
                    return;
                }
            }
        };
        let bcc = cl[0] ^ cl[1] ^ cl[2] ^ cl[3];
        let nvb = frame[1];
        if nvb == 0x70 {
            let good = frame.len() == 9
                && frame[2..6] == cl
                && frame[6] == bcc
                && crc_a(&frame[..7]) == [frame[7], frame[8]];
            if !good {
                self.silence();
                return;
            }
            let status = if always_cascade || !last { sak | 0x04 } else { sak & !0x04 };
            let mut crc = crc_a(&[status]);
            if bad_sak_crc {
                crc[0] ^= 0xFF;
            }
            if short_sak {
                self.answer(vec![status, crc[0]], 0);
            } else {
                self.answer(vec![status, crc[0], crc[1]], 0);
            }
            return;
        }
        let known = (((nvb >> 4) as usize).saturating_sub(2)) * 8 + (nvb & 0x07) as usize;
        if known > 32 {
            self.silence();
            return;
        }
        for i in 0..known {
            let sent = frame.get(2 + i / 8).map(|b| (b >> (i % 8)) & 1).unwrap_or(0);
            let mine = (cl[i / 8] >> (i % 8)) & 1;
            if sent != mine {
                self.silence();
                return;
            }
        }
        let all = [cl[0], cl[1], cl[2], cl[3], bcc];
        let first = known / 8;
        let mut bytes: Vec<u8> = all[first..].to_vec();
        if known % 8 != 0 {
            bytes[0] &= 0xFFu8 << (known % 8);
        }
        if let Some(p) = self.collide_at.take() {
            let p = p as usize;
            let last_byte = (p - 1) / 8;
            bytes.truncate(last_byte + 1 - first);
            let keep = p % 8;
            if keep != 0 {
                let n = bytes.len();
                bytes[n - 1] &= !(0xFFu8 << keep);
            }
            self.regs[PCDRegister::ErrorReg as usize] |= 0x08;
            self.regs[PCDRegister::CollReg as usize] = match self.coll_reg_override {
                Some(v) => v,
                None => (p as u8) & 0x1F,
            };
            self.answer(bytes, keep as u8);
            return;
        }
        self.answer(bytes, 0);
    }
}

impl Bus for SimChip {
    fn select(&mut self) -> Result<(), BusFault> {
        if self.low {
            self.left_low = true;
        }
        self.low = true;
        self.addr = None;
        Ok(())
    }

    fn release(&mut self) -> Result<(), BusFault> {
        self.low = false;
        self.addr = None;
        Ok(())
    }

    fn exchange(&mut self, out: u8) -> Result<u8, BusFault> {
        let n = self.exchanges;
        self.exchanges += 1;
        if self.fail_exchange_at == Some(n) {
            return Err(BusFault);
        }
        let back = self.latched;
        self.latched = 0;
        match self.addr {
            None => {
                self.addr = Some(out);
                if out & 0x80 != 0 {
                    self.latched = self.read((out >> 1) & 0x3F);
                }
            }
            Some(a) => {
                if a & 0x80 != 0 {
                    if out & 0x80 != 0 {
                        self.addr = Some(out);
                        self.latched = self.read((out >> 1) & 0x3F);
                    }
                } else {
                    self.write((a >> 1) & 0x3F, out);
                }
            }
        }
        Ok(back)
    }

    fn delay_ms(&mut self, ms: u64) {
        self.delays.push(ms);
    }
}

fn count_reads(chip: &SimChip, reg: u8) -> usize {
    chip.reads.iter().filter(|r| **r == reg).count()
}

fn last_write(chip: &SimChip, reg: u8) -> Option<u8> {
    chip.writes.iter().rev().find(|w| w.0 == reg).map(|w| w.1)
}

const UID4: [u8; 4] = [0xDE, 0xAD, 0xBE, 0xEF];

#[test]
fn register_write_then_read_returns_the_value() {
    let plain = [
        PCDRegister::ModeReg,
        PCDRegister::TxModeReg,
        PCDRegister::RxModeReg,
        PCDRegister::TxASKReg,
        PCDRegister::ModWidthReg,
        PCDRegister::TModeReg,
        PCDRegister::TPrescalerReg,
        PCDRegister::TReloadRegH,
        PCDRegister::TReloadRegL,
        PCDRegister::RFCfgReg,
        PCDRegister::TestADCReg,
    ];
    let mut dev = MFRC522::new(SimChip::new());
    for reg in plain {
        for val in [0x00u8, 0x01, 0x5A, 0x80, 0xFF] {
            assert_eq!(dev.write_reg(reg, val), Ok(()));
            assert_eq!(dev.read_reg(reg), Ok(val));
        }
    }
    assert!(!dev.bus().left_low);
    assert!(!dev.bus().low);
}

#[test]
fn burst_write_then_burst_read_through_the_buffer() {
    let mut dev = MFRC522::new(SimChip::new());
    let data = [1u8, 2, 3, 4, 5];
    assert_eq!(dev.write_reg_buff(PCDRegister::FIFODataReg, 5, &data), Ok(()));
    assert_eq!(dev.read_reg(PCDRegister::FIFOLevelReg), Ok(5));
    let mut out = [0u8; 8];
    assert_eq!(dev.read_reg_buff(PCDRegister::FIFODataReg, 5, &mut out, 0), Ok(()));
    assert_eq!(out, [1, 2, 3, 4, 5, 0, 0, 0]);
    assert_eq!(dev.read_reg(PCDRegister::FIFOLevelReg), Ok(0));
}

#[test]
fn burst_read_keeps_the_low_bits_of_the_first_byte() {
    let mut dev = MFRC522::new(SimChip::new());
    let data = [0xF8u8, 0x22];
    assert_eq!(dev.write_reg_buff(PCDRegister::FIFODataReg, 2, &data), Ok(()));
    let mut out = [0x05u8, 0x00, 0x77];
    assert_eq!(dev.read_reg_buff(PCDRegister::FIFODataReg, 2, &mut out, 3), Ok(()));
    assert_eq!(out, [0xFD, 0x22, 0x77]);
}

#[test]
fn burst_read_of_one_byte_with_alignment_reads_one_byte() {
    let mut dev = MFRC522::new(SimChip::new());
    let data = [0xF0u8, 0x22];
    assert_eq!(dev.write_reg_buff(PCDRegister::FIFODataReg, 2, &data), Ok(()));
    let mut out = [0x03u8, 0x99];
    assert_eq!(dev.read_reg_buff(PCDRegister::FIFODataReg, 1, &mut out, 4), Ok(()));
    assert_eq!(out, [0xF3, 0x99]);
    assert_eq!(dev.read_reg(PCDRegister::FIFOLevelReg), Ok(1));
}

#[test]
fn burst_read_of_nothing_touches_nothing() {
    let mut dev = MFRC522::new(SimChip::new());
    let mut out = [9u8; 2];
    assert_eq!(dev.read_reg_buff(PCDRegister::FIFODataReg, 0, &mut out, 0), Ok(()));
    assert_eq!(out, [9, 9]);
    assert_eq!(dev.bus().exchanges, 0);
}

#[test]
fn bit_masks_change_only_their_bits() {
    let mut dev = MFRC522::new(SimChip::new());
    assert_eq!(dev.write_reg(PCDRegister::CollReg, 0xA5), Ok(()));
    assert_eq!(dev.pcd_clear_register_bit_mask(PCDRegister::CollReg, 0x80), Ok(()));
    assert_eq!(dev.read_reg(PCDRegister::CollReg), Ok(0x25));
    assert_eq!(dev.pcd_set_register_bit_mask(PCDRegister::CollReg, 0x18), Ok(()));
    assert_eq!(dev.read_reg(PCDRegister::CollReg), Ok(0x3D));
}

#[test]
fn version_is_read_from_the_version_register() {
    let mut dev = MFRC522::new(SimChip::new());
    assert_eq!(dev.pcd_get_version(), Ok(0x92));
}

#[test]
fn reset_ends_at_the_first_clear_look() {
    let mut dev = MFRC522::new(SimChip::new());
    assert_eq!(dev.pcd_reset(), Ok(()));
    let chip = dev.into_bus();
    assert_eq!(count_reads(&chip, PCDRegister::CommandReg), 1);
    assert!(chip.delays.is_empty());
    assert_eq!(chip.writes[0], (PCDRegister::CommandReg, PCDCommand::SoftReset));
}

#[test]
fn reset_waits_while_power_down_shows() {
    let mut chip = SimChip::new();
    chip.power_down_reads = 2;
    let mut dev = MFRC522::new(chip);
    assert_eq!(dev.pcd_reset(), Ok(()));
    let chip = dev.into_bus();
    assert_eq!(count_reads(&chip, PCDRegister::CommandReg), 3);
    assert_eq!(chip.delays, vec![50, 50]);
}

#[test]
fn reset_gives_up_after_three_looks() {
    let mut chip = SimChip::new();
    chip.power_down_reads = 200;
    let mut dev = MFRC522::new(chip);
    assert_eq!(dev.pcd_reset(), Ok(()));
    let chip = dev.into_bus();
    assert_eq!(count_reads(&chip, PCDRegister::CommandReg), 3);
    assert_eq!(chip.delays, vec![50, 50, 50]);
}

#[test]
fn init_programs_the_defaults_and_switches_the_antenna_on() {
    let mut chip = SimChip::new();
    chip.power_down_reads = 1;
    let mut dev = MFRC522::new(chip);
    assert_eq!(dev.pcd_init(), Ok(()));
    let chip = dev.into_bus();
    assert_eq!(count_reads(&chip, PCDRegister::CommandReg), 2);
    assert_eq!(chip.delays, vec![50, 4]);
    let expected = vec![
        (PCDRegister::CommandReg, PCDCommand::SoftReset),
        (PCDRegister::TxModeReg, 0x00),
        (PCDRegister::RxModeReg, 0x00),
        (PCDRegister::ModWidthReg, 0x26),
        (PCDRegister::TModeReg, 0x80),
        (PCDRegister::TPrescalerReg, 0xA9),
        (PCDRegister::TReloadRegH, 0x03),
        (PCDRegister::TReloadRegL, 0xE8),
        (PCDRegister::TxASKReg, 0x40),
        (PCDRegister::ModeReg, 0x3D),
        (PCDRegister::TxControlReg, 0x83),
    ];
    assert_eq!(chip.writes, expected);
}

#[test]
fn antenna_is_left_alone_when_it_is_on() {
    let mut chip = SimChip::new();
    chip.regs[PCDRegister::TxControlReg as usize] = 0x83;
    let mut dev = MFRC522::new(chip);
    assert_eq!(dev.pcd_antenna_on(), Ok(()));
    let chip = dev.into_bus();
    assert!(chip.writes.is_empty());
}

#[test]
fn antenna_is_switched_on_when_one_driver_is_off() {
    let mut chip = SimChip::new();
    chip.regs[PCDRegister::TxControlReg as usize] = 0x81;
    let mut dev = MFRC522::new(chip);
    assert_eq!(dev.pcd_antenna_on(), Ok(()));
    let chip = dev.into_bus();
    assert_eq!(chip.writes, vec![(PCDRegister::TxControlReg, 0x83)]);
}

#[test]
fn crc_of_reference_vectors() {
    let mut dev = MFRC522::new(SimChip::new());
    assert_eq!(dev.pcd_calc_crc(&[0x00, 0x00], 2), Ok([0xA0, 0x1E]));
    assert_eq!(dev.pcd_calc_crc(&[0x12, 0x34], 2), Ok([0x26, 0xCF]));
    assert_eq!(dev.pcd_calc_crc(&[0x50, 0x00], 2), Ok([0x57, 0xCD]));
    assert_eq!(dev.pcd_calc_crc(&[0x50, 0x00, 0x99], 2), Ok([0x57, 0xCD]));
}

#[test]
fn crc_gives_up_after_5000_polls() {
    let mut chip = SimChip::new();
    chip.crc_never_ready = true;
    let mut dev = MFRC522::new(chip);
    assert_eq!(dev.pcd_calc_crc(&[0x00, 0x00], 2), Err(PCDErrorCode::Timeout));
    let chip = dev.into_bus();
    assert_eq!(count_reads(&chip, PCDRegister::DivIrqReg), 5000);
}

fn select_frame(uid: &[u8; 4]) -> [u8; 9] {
    let mut frame = [0u8; 9];
    frame[0] = PICCCommand::PICC_CMD_SEL_CL1;
    frame[1] = 0x70;
    frame[2..6].copy_from_slice(uid);
    frame[6] = uid[0] ^ uid[1] ^ uid[2] ^ uid[3];
    let crc = crc_a(&frame[..7]);
    frame[7] = crc[0];
    frame[8] = crc[1];
    frame
}

#[test]
fn checked_exchange_accepts_a_good_checksum() {
    for (sak, sum) in [(0x08u8, [0xB6u8, 0xDD]), (0x00, crc_a(&[0x00])), (0x20, crc_a(&[0x20]))] {
        let mut dev = MFRC522::new(SimChip::with_card(&UID4, sak));
        let frame = select_frame(&UID4);
        let mut back = [0u8; 3];
        let mut back_len = 3u8;
        let mut valid_bits = 0u8;
        let r = dev.pcd_transceive_data(&frame, 9, &mut back, &mut back_len, &mut valid_bits, 0, true);
        assert_eq!(r, Ok(false));
        assert_eq!(back_len, 3);
        assert_eq!(valid_bits, 0);
        assert_eq!(back, [sak, sum[0], sum[1]]);
        assert_eq!(dev.pcd_calc_crc(&back, 1), Ok([back[1], back[2]]));
    }
}

#[test]
fn checked_exchange_refuses_a_bad_checksum() {
    let mut chip = SimChip::with_card(&UID4, 0x08);
    chip.card.as_mut().unwrap().bad_sak_crc = true;
    let mut dev = MFRC522::new(chip);
    let frame = select_frame(&UID4);
    let mut back = [0u8; 3];
    let mut back_len = 3u8;
    let mut valid_bits = 0u8;
    let r = dev.pcd_transceive_data(&frame, 9, &mut back, &mut back_len, &mut valid_bits, 0, true);
    assert_eq!(r, Err(PCDErrorCode::CrcMismatch));
}

#[test]
fn checked_exchange_refuses_a_short_answer() {
    let mut chip = SimChip::with_card(&UID4, 0x08);
    chip.atqa = vec![0x04];
    let mut dev = MFRC522::new(chip);
    let mut back = [0u8; 3];
    let mut back_len = 3u8;
    let mut valid_bits = 7u8;
    let r = dev.pcd_transceive_data(
        &[PICCCommand::PICC_CMD_REQA],
        1,
        &mut back,
        &mut back_len,
        &mut valid_bits,
        0,
        true,
    );
    assert_eq!(r, Err(PCDErrorCode::CrcMismatch));
}

#[test]
fn exchange_programs_bit_framing_and_start_send() {
    let mut dev = MFRC522::new(SimChip::with_card(&UID4, 0x08));
    let mut back = [0u8; 2];
    let mut back_len = 2u8;
    let mut valid_bits = 7u8;
    let r = dev.pcd_communicate_with_picc(
        PCDCommand::Transceive,
        0x30,
        &[PICCCommand::PICC_CMD_REQA],
        1,
        &mut back,
        &mut back_len,
        &mut valid_bits,
        0,
        false,
    );
    assert_eq!(r, Ok(false));
    assert_eq!(back, [0x04, 0x00]);
    let chip = dev.into_bus();
    let expected = vec![
        (PCDRegister::CommandReg, PCDCommand::Idle),
        (PCDRegister::ComIrqReg, 0x7F),
        (PCDRegister::FIFOLevelReg, 0x80),
        (PCDRegister::FIFODataReg, PICCCommand::PICC_CMD_REQA),
        (PCDRegister::BitFramingReg, 0x07),
        (PCDRegister::CommandReg, PCDCommand::Transceive),
        (PCDRegister::BitFramingReg, 0x87),
    ];
    assert_eq!(chip.writes, expected);
}

#[test]
fn exchange_without_interrupt_gives_up_after_2000_polls() {
    let mut chip = SimChip::with_card(&UID4, 0x08);
    chip.irq_never = true;
    let mut dev = MFRC522::new(chip);
    let mut back = [0u8; 2];
    let mut back_len = 2u8;
    let mut valid_bits = 7u8;
    let r = dev.pcd_transceive_data(
        &[PICCCommand::PICC_CMD_REQA],
        1,
        &mut back,
        &mut back_len,
        &mut valid_bits,
        0,
        false,
    );
    assert_eq!(r, Err(PCDErrorCode::Timeout));
    let chip = dev.into_bus();
    assert_eq!(count_reads(&chip, PCDRegister::ComIrqReg), 2000);
}

#[test]
fn exchange_reports_a_protocol_error() {
    for bits in [0x01u8, 0x02, 0x10] {
        let mut chip = SimChip::with_card(&UID4, 0x08);
        chip.error_bits = bits;
        let mut dev = MFRC522::new(chip);
        assert_eq!(dev.picc_is_new_card_present(), Err(PCDErrorCode::Protocol));
    }
}

#[test]
fn exchange_reports_an_answer_that_does_not_fit() {
    let mut chip = SimChip::with_card(&UID4, 0x08);
    chip.atqa = vec![0x04, 0x00, 0x00];
    let mut dev = MFRC522::new(chip);
    assert_eq!(dev.picc_is_new_card_present(), Err(PCDErrorCode::Overflow));
}

#[test]
fn card_present_with_a_proper_answer() {
    let mut dev = MFRC522::new(SimChip::with_card(&UID4, 0x08));
    assert_eq!(dev.picc_is_new_card_present(), Ok(true));
    let chip = dev.into_bus();
    assert_eq!(chip.transceives, 1);
    assert_eq!(&chip.writes[..3], &[
        (PCDRegister::TxModeReg, 0x00),
        (PCDRegister::RxModeReg, 0x00),
        (PCDRegister::ModWidthReg, 0x26),
    ]);
}

#[test]
fn no_card_without_an_answer() {
    let mut dev = MFRC522::new(SimChip::new());
    assert_eq!(dev.picc_is_new_card_present(), Err(PCDErrorCode::Timeout));
}

#[test]
fn no_card_with_a_one_byte_answer() {
    let mut chip = SimChip::with_card(&UID4, 0x08);
    chip.atqa = vec![0x04];
    let mut dev = MFRC522::new(chip);
    assert_eq!(dev.picc_is_new_card_present(), Err(PCDErrorCode::InvalidAtqa));
}

#[test]
fn no_card_with_an_empty_answer() {
    let mut chip = SimChip::with_card(&UID4, 0x08);
    chip.atqa = vec![];
    let mut dev = MFRC522::new(chip);
    assert_eq!(dev.picc_is_new_card_present(), Err(PCDErrorCode::InvalidAtqa));
}

#[test]
fn no_card_with_invalid_bits_in_the_answer() {
    for bits in 1..8u8 {
        let mut chip = SimChip::with_card(&UID4, 0x08);
        chip.atqa_last_bits = bits;
        let mut dev = MFRC522::new(chip);
        assert_eq!(dev.picc_is_new_card_present(), Err(PCDErrorCode::InvalidAtqa));
    }
}

#[test]
fn request_needs_room_for_two_bytes() {
    let mut dev = MFRC522::new(SimChip::with_card(&UID4, 0x08));
    let mut atqa = [0u8; 2];
    let mut size = 1u8;
    assert_eq!(dev.picc_request_a(&mut atqa, &mut size), Err(PCDErrorCode::Overflow));
    assert_eq!(dev.bus().exchanges, 0);
    let mut size = 2u8;
    assert_eq!(dev.picc_request_a(&mut atqa, &mut size), Ok(()));
    assert_eq!(size, 2);
    assert_eq!(atqa, [0x04, 0x00]);
}

#[test]
fn wake_up_reaches_a_halted_card() {
    let mut dev = MFRC522::new(SimChip::with_card(&UID4, 0x08));
    assert_eq!(dev.picc_halta(), Ok(()));
    assert!(dev.bus().card.as_ref().unwrap().halted);
    let mut atqa = [0u8; 2];
    let mut size = 2u8;
    assert_eq!(dev.picc_request_a(&mut atqa, &mut size), Err(PCDErrorCode::Timeout));
    let mut size = 2u8;
    assert_eq!(
        dev.picc_reqa_or_wupa(PICCCommand::PICC_CMD_WUPA, &mut atqa, &mut size),
        Ok(())
    );
}

#[test]
fn get_card_reads_a_four_byte_identifier() {
    for uid in [UID4, [0x00, 0x00, 0x00, 0x00], [0xFF, 0xFF, 0xFF, 0xFF], [0x01, 0x23, 0x45, 0x67]] {
        let mut dev = MFRC522::new(SimChip::with_card(&uid, 0x08));
        let card: Uid = dev.get_card(UidSize::Four).unwrap();
        assert_eq!(&card.uid_bytes[..4], &uid);
        assert_eq!(&card.uid_bytes[4..], &[0u8; 6]);
        assert_eq!(card.sak, 0x08);
        assert_eq!(card.size, 4);
        let chip = dev.into_bus();
        assert_eq!(chip.transceives, 2);
        assert!(chip.writes.iter().all(|w| w.0 != PCDRegister::FIFODataReg || w.1 != 0x95));
        assert!(!chip.low);
        assert!(!chip.left_low);
    }
}

#[test]
fn get_card_clears_the_collision_keep_bit_first() {
    let mut chip = SimChip::with_card(&UID4, 0x08);
    chip.regs[PCDRegister::CollReg as usize] = 0xA0;
    let mut dev = MFRC522::new(chip);
    assert!(dev.get_card(UidSize::Four).is_ok());
    let chip = dev.into_bus();
    assert_eq!(chip.reads[0], PCDRegister::CollReg);
    assert_eq!(chip.writes[0], (PCDRegister::CollReg, 0x20));
}

#[test]
fn get_card_sends_anticollision_then_select() {
    let mut dev = MFRC522::new(SimChip::with_card(&UID4, 0x08));
    assert!(dev.get_card(UidSize::Four).is_ok());
    let chip = dev.into_bus();
    let sent: Vec<u8> = chip
        .writes
        .iter()
        .filter(|w| w.0 == PCDRegister::FIFODataReg)
        .map(|w| w.1)
        .collect();
    let frame = select_frame(&UID4);
    let mut expected = vec![0x93, 0x20];
    expected.extend_from_slice(&frame[..7]);
    expected.extend_from_slice(&frame);
    expected.push(0x08);
    assert_eq!(sent, expected);
}

#[test]
fn single_collision_costs_one_more_round() {
    for p in 1..=31u8 {
        let mut uid = [0x5Au8, 0xC3, 0x0F, 0x96];
        uid[((p - 1) / 8) as usize] |= 1 << ((p - 1) % 8);
        let mut chip = SimChip::with_card(&uid, 0x08);
        chip.collide_at = Some(p);
        let mut dev = MFRC522::new(chip);
        let card = dev.get_card(UidSize::Four).unwrap();
        assert_eq!(&card.uid_bytes[..4], &uid);
        assert_eq!(card.sak, 0x08);
        assert_eq!(card.size, 4);
        let chip = dev.into_bus();
        assert_eq!(chip.transceives, 3);
        assert_eq!(count_reads(&chip, PCDRegister::CollReg), 2);
    }
}

#[test]
fn collision_round_sends_the_known_bits_with_the_colliding_bit_set() {
    let uid = [0b0101_1010u8, 0b0000_0100, 0x0F, 0x96];
    let mut chip = SimChip::with_card(&uid, 0x08);
    chip.collide_at = Some(11);
    let mut dev = MFRC522::new(chip);
    assert!(dev.get_card(UidSize::Four).is_ok());
    let chip = dev.into_bus();
    let framings: Vec<u8> = chip
        .writes
        .iter()
        .filter(|w| w.0 == PCDRegister::BitFramingReg)
        .map(|w| w.1)
        .collect();
    assert_eq!(framings, vec![0x00, 0x00, 0x80, 0x33, 0x33, 0xB3, 0x00, 0x00, 0x80]);
    let sent: Vec<u8> = chip
        .writes
        .iter()
        .filter(|w| w.0 == PCDRegister::FIFODataReg)
        .map(|w| w.1)
        .collect();
    assert_eq!(&sent[..6], &[0x93, 0x20, 0x93, 0x33, 0b0101_1010, 0b0000_0100]);
}

#[test]
fn collision_without_a_position_is_an_error() {
    let mut chip = SimChip::with_card(&UID4, 0x08);
    chip.collide_at = Some(5);
    chip.coll_reg_override = Some(0x20);
    let mut dev = MFRC522::new(chip);
    assert_eq!(dev.get_card(UidSize::Four).err(), Some(PCDErrorCode::InvalidCollisionPosition));
}

#[test]
fn collision_among_known_bits_is_an_error() {
    let uid = [0x00u8, 0x08, 0x00, 0x00];
    let mut chip = SimChip::with_card(&uid, 0x08);
    chip.collide_at = Some(12);
    chip.coll_reg_override = Some(0x03);
    let mut dev = MFRC522::new(chip);
    let mut card = Uid { size: 4, sak: 0, uid_bytes: [0; 10] };
    assert_eq!(dev.picc_select(&mut card, 8), Err(PCDErrorCode::ProtocolInconsistency));
    assert_eq!(dev.bus().transceives, 1);
}

#[test]
fn collision_at_the_last_bit_needs_no_further_partial_frame() {
    let uid = [0x5Au8, 0xC3, 0x0F, 0x96];
    let mut chip = SimChip::with_card(&uid, 0x08);
    chip.collide_at = Some(32);
    let mut dev = MFRC522::new(chip);
    let card = dev.get_card(UidSize::Four).unwrap();
    assert_eq!(&card.uid_bytes[..4], &uid);
    assert_eq!(dev.bus().transceives, 2);
}

#[test]
fn select_refuses_more_than_80_known_bits() {
    for bits in [81u8, 82, 200, 255] {
        let mut dev = MFRC522::new(SimChip::with_card(&UID4, 0x08));
        let mut card = Uid { size: 4, sak: 0x55, uid_bytes: [7; 10] };
        assert_eq!(dev.picc_select(&mut card, bits), Err(PCDErrorCode::BitsExceeded));
        assert_eq!(card.sak, 0x55);
        assert_eq!(card.uid_bytes, [7; 10]);
        let chip = dev.into_bus();
        assert_eq!(chip.exchanges, 0);
        assert!(chip.delays.is_empty());
        assert!(!chip.low);
    }
}

#[test]
fn select_accepts_80_known_bits() {
    let mut dev = MFRC522::new(SimChip::with_card(&[0, 0, 0, 0], 0x08));
    let mut card = Uid { size: 4, sak: 0, uid_bytes: [0; 10] };
    assert_eq!(dev.picc_select(&mut card, 80), Ok(()));
    let chip = dev.into_bus();
    assert_eq!(chip.transceives, 1);
}

#[test]
fn get_card_reads_a_seven_byte_identifier() {
    let uid = [0x04u8, 0x11, 0x22, 0x33, 0x44, 0x55, 0x66];
    let mut dev = MFRC522::new(SimChip::with_card(&uid, 0x00));
    let card = dev.get_card(UidSize::Seven).unwrap();
    assert_eq!(&card.uid_bytes[..7], &uid);
    assert_eq!(card.size, 7);
    assert_eq!(card.sak, 0x00);
    assert_eq!(dev.bus().transceives, 4);
}

#[test]
fn get_card_reads_a_ten_byte_identifier() {
    let uid = [0x04u8, 0x11, 0x22, 0x33, 0x44, 0x55, 0x66, 0x77, 0x88, 0x99];
    let mut dev = MFRC522::new(SimChip::with_card(&uid, 0x20));
    let card = dev.get_card(UidSize::Ten).unwrap();
    assert_eq!(card.uid_bytes, uid);
    assert_eq!(card.size, 10);
    assert_eq!(card.sak, 0x20);
    assert_eq!(dev.bus().transceives, 6);
}

#[test]
fn a_fourth_cascade_level_is_an_error() {
    let mut chip = SimChip::with_card(&[0x04u8, 0x11, 0x22, 0x33, 0x44, 0x55, 0x66, 0x77, 0x88, 0x99], 0x20);
    chip.card.as_mut().unwrap().always_cascade = true;
    let mut dev = MFRC522::new(chip);
    assert_eq!(dev.get_card(UidSize::Ten).err(), Some(PCDErrorCode::TooManyCascadeLevels));
    assert_eq!(dev.bus().transceives, 6);
}

#[test]
fn a_short_select_acknowledge_is_an_error() {
    let mut chip = SimChip::with_card(&UID4, 0x08);
    chip.card.as_mut().unwrap().short_sak = true;
    let mut dev = MFRC522::new(chip);
    let mut card = Uid { size: 4, sak: 0x55, uid_bytes: [7; 10] };
    assert_eq!(dev.picc_select(&mut card, 0), Err(PCDErrorCode::InvalidSak));
    assert_eq!(card.uid_bytes, [7; 10]);
    assert_eq!(card.sak, 0x55);
}

#[test]
fn a_spoiled_select_acknowledge_is_an_error() {
    let mut chip = SimChip::with_card(&UID4, 0x08);
    chip.card.as_mut().unwrap().bad_sak_crc = true;
    let mut dev = MFRC522::new(chip);
    assert_eq!(dev.get_card(UidSize::Four).err(), Some(PCDErrorCode::CrcMismatch));
}

#[test]
fn get_card_without_a_card_times_out() {
    let mut dev = MFRC522::new(SimChip::new());
    assert_eq!(dev.get_card(UidSize::Four).err(), Some(PCDErrorCode::Timeout));
}

#[test]
fn a_fault_on_the_link_is_a_transport_error_and_releases_chip_select() {
    for at in 0..40usize {
        let mut chip = SimChip::with_card(&UID4, 0x08);
        chip.fail_exchange_at = Some(at);
        let mut dev = MFRC522::new(chip);
        assert_eq!(dev.get_card(UidSize::Four).err(), Some(PCDErrorCode::Transport));
        let chip = dev.into_bus();
        assert_eq!(chip.exchanges, at + 1);
        assert!(!chip.low);
        assert!(!chip.left_low);
    }
}

#[test]
fn halt_succeeds_on_silence() {
    let mut dev = MFRC522::new(SimChip::with_card(&UID4, 0x08));
    assert_eq!(dev.picc_halta(), Ok(()));
    let chip = dev.into_bus();
    let sent: Vec<u8> = chip
        .writes
        .iter()
        .filter(|w| w.0 == PCDRegister::FIFODataReg)
        .map(|w| w.1)
        .collect();
    assert_eq!(sent, vec![0x50, 0x00, 0x50, 0x00, 0x57, 0xCD]);
}

#[test]
fn self_test_returns_the_64_bytes_of_the_buffer() {
    let mut dev = MFRC522::new(SimChip::new());
    let digest = dev.pcd_selftest().unwrap();
    let expected: Vec<u8> = (0..64u8).map(|i| i.wrapping_mul(7).wrapping_add(3)).collect();
    assert_eq!(&digest[..], &expected[..]);
    let chip = dev.into_bus();
    assert_eq!(last_write(&chip, PCDRegister::AutoTestReg), Some(0x00));
    assert_eq!(last_write(&chip, PCDRegister::TxControlReg), Some(0x83));
    assert_eq!(chip.delays, vec![4]);
    let zeros = chip.writes.iter().filter(|w| w.0 == PCDRegister::FIFODataReg && w.1 == 0).count();
    assert_eq!(zeros, 26);
}

#[test]
fn sleep_waits_for_the_time_given() {
    let mut dev = MFRC522::new(SimChip::new());
    dev.sleep(20);
    assert_eq!(dev.bus().delays, vec![20]);
}
