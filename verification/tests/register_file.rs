use mfrc522_driver::bus::Bus;
use mfrc522_driver::sim::RegisterFile;
use mfrc522_driver::transport::MFRC522;

#[test]
fn every_register_reads_back_what_was_written() {
    let mut dev = MFRC522::new(RegisterFile::new());
    for reg in 0..64u8 {
        for val in [0x00u8, 0x01, 0x7F, 0x80, 0xA5, 0xFF] {
            assert_eq!(dev.write_reg(reg, val), Ok(()));
            assert_eq!(dev.read_reg(reg), Ok(val));
            assert_eq!(dev.bus().register(reg), val);
        }
    }
}

#[test]
fn a_write_leaves_the_other_registers_alone() {
    let mut dev = MFRC522::new(RegisterFile::new());
    for reg in 0..64u8 {
        assert_eq!(dev.write_reg(reg, reg ^ 0x55), Ok(()));
    }
    assert_eq!(dev.write_reg(0x11, 0xEE), Ok(()));
    for reg in 0..64u8 {
        let expected = if reg == 0x11 { 0xEE } else { reg ^ 0x55 };
        assert_eq!(dev.read_reg(reg), Ok(expected));
    }
}

#[test]
fn fresh_registers_read_zero() {
    let mut dev = MFRC522::new(RegisterFile::new());
    for reg in 0..64u8 {
        assert_eq!(dev.read_reg(reg), Ok(0));
    }
}

#[test]
fn a_burst_write_leaves_the_last_byte_in_the_register() {
    let mut dev = MFRC522::new(RegisterFile::new());
    assert_eq!(dev.write_reg_buff(0x24, 3, &[1, 2, 3, 4]), Ok(()));
    assert_eq!(dev.read_reg(0x24), Ok(3));
}

#[test]
fn a_burst_read_repeats_the_register() {
    let mut dev = MFRC522::new(RegisterFile::new());
    assert_eq!(dev.write_reg(0x24, 0xC6), Ok(()));
    let mut out = [0x01u8, 0, 0, 0x77];
    assert_eq!(dev.read_reg_buff(0x24, 3, &mut out, 2), Ok(()));
    assert_eq!(out, [0xC5, 0xC6, 0xC6, 0x77]);
}

#[test]
fn the_register_file_answers_one_exchange_late() {
    let mut file = RegisterFile::new();
    assert_eq!(file.select(), Ok(()));
    assert_eq!(file.exchange(0x24 << 1), Ok(0));
    assert_eq!(file.exchange(0x99), Ok(0));
    assert_eq!(file.release(), Ok(()));
    assert_eq!(file.select(), Ok(()));
    assert_eq!(file.exchange((0x24 << 1) | 0x80), Ok(0));
    assert_eq!(file.exchange(0), Ok(0x99));
    assert_eq!(file.exchange(0), Ok(0));
    assert_eq!(file.release(), Ok(()));
}
