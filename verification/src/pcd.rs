//! Operations on the reader chip itself: bit masks, reset, antenna, start-up
//! defaults, the checksum coprocessor, the command engine and the self-test.

use vstd::prelude::*;
use crate::bus;
use crate::bus::{
    Bus, RegOp, asks_burst_write, asks_pause, asks_read, asks_write, fault_free, is_update,
    lemma_run_append, stops_at_fault, value,
};
use crate::consts::{PCDErrorCode, PCDRegister, PCDCommand};
use crate::transport::MFRC522;

verus! {

/// The journal of a soft reset: the reset command, then up to three looks at
/// the command register. A look that still shows the power-down bit is
/// followed by a wait of 50 ms; the first look that shows it clear ends the run.
pub open spec fn is_reset_run(d: Seq<RegOp>) -> bool {
    &&& 1 <= d.len() <= 7
    &&& asks_write(d[0], PCDRegister::CommandReg, PCDCommand::SoftReset)
    &&& forall|i: int|
        1 <= i < d.len() && i % 2 == 1 ==> asks_read(#[trigger] d[i], PCDRegister::CommandReg, 1)
    &&& forall|i: int|
        2 <= i < d.len() && i % 2 == 0 ==> asks_pause(#[trigger] d[i], 50) && value(d[i - 1])
            & 0x10 != 0
}

/// A reset run stays one when the entries that its rules call for are added:
/// a look where a look is due, and a wait after a look that showed the
/// power-down bit.
proof fn lemma_reset_run_grows(d0: Seq<RegOp>, d: Seq<RegOp>)
    requires
        is_reset_run(d0),
        d0.len() % 2 == 1,
        d0.len() < d.len() <= d0.len() + 2,
        d.len() <= 7,
        forall|i: int| 0 <= i < d0.len() ==> d[i] == d0[i],
        asks_read(d[d0.len() as int], PCDRegister::CommandReg, 1),
        d.len() == d0.len() + 2 ==> asks_pause(d[d0.len() as int + 1], 50) && value(
            d[d0.len() as int],
        ) & 0x10 != 0,
    ensures
        is_reset_run(d),
{
    assert forall|i: int| 1 <= i < d.len() && i % 2 == 1 implies asks_read(
        #[trigger] d[i],
        PCDRegister::CommandReg,
        1,
    ) by {
        if i < d0.len() {
            assert(d[i] == d0[i]);
        }
    }
    assert forall|i: int| 2 <= i < d.len() && i % 2 == 0 implies asks_pause(#[trigger] d[i], 50)
        && value(d[i - 1]) & 0x10 != 0 by {
        if i < d0.len() {
            assert(d[i] == d0[i]);
            assert(d[i - 1] == d0[i - 1]);
        }
    }
}

/// A fault-free reset run is complete: it ends with a look that shows the
/// power-down bit clear, or after the third look and its wait.
pub open spec fn reset_complete(d: Seq<RegOp>) -> bool {
    &&& d.len() >= 2
    &&& if d.len() % 2 == 0 {
        value(d[d.len() - 1]) & 0x10 == 0
    } else {
        d.len() == 7
    }
}

/// The journal of switching the antenna on: the transmitter control register
/// is read, and written back with both driver bits set only where the value
/// read lacks one of them.
pub open spec fn is_antenna_run(d: Seq<RegOp>) -> bool {
    &&& 1 <= d.len() <= 2
    &&& asks_read(d[0], PCDRegister::TxControlReg, 1)
    &&& (d.len() == 2 <==> d[0].ok() && value(d[0]) & 0x03 != 0x03)
    &&& (d.len() == 2 ==> asks_write(d[1], PCDRegister::TxControlReg, value(d[0]) | 0x03))
}

/// The registers that start-up programs after the reset, with their values,
/// in the order of writing.
pub open spec fn init_defaults() -> Seq<(u8, u8)> {
    seq![
        (PCDRegister::TxModeReg, 0x00u8),
        (PCDRegister::RxModeReg, 0x00u8),
        (PCDRegister::ModWidthReg, 0x26u8),
        (PCDRegister::TModeReg, 0x80u8),
        (PCDRegister::TPrescalerReg, 0xA9u8),
        (PCDRegister::TReloadRegH, 0x03u8),
        (PCDRegister::TReloadRegL, 0xE8u8),
        (PCDRegister::TxASKReg, 0x40u8),
        (PCDRegister::ModeReg, 0x3Du8),
    ]
}

/// The journal of start-up, whose reset took the first `k` entries: the reset
/// run, the defaults, the antenna and a settling wait of 4 ms. A run that a
/// fault cut short holds the part up to the fault.
pub open spec fn is_init_run(d: Seq<RegOp>, k: int) -> bool {
    let a = k + 9;
    let w: int = if d.len() > a && d[a].ok() && value(d[a]) & 0x03 != 0x03 { 1 } else { 0 };
    &&& 1 <= k <= d.len()
    &&& is_reset_run(d.take(k))
    &&& (d.len() > k ==> reset_complete(d.take(k)))
    &&& forall|i: int|
        0 <= i < 9 && k + i < d.len() ==> asks_write(
            #[trigger] d[k + i],
            init_defaults()[i].0,
            init_defaults()[i].1,
        )
    &&& (d.len() > a ==> asks_read(d[a], PCDRegister::TxControlReg, 1))
    &&& (d.len() > a + 1 && w == 1 ==> asks_write(
        d[a + 1],
        PCDRegister::TxControlReg,
        value(d[a]) | 0x03,
    ))
    &&& (d.len() > a + w + 1 ==> asks_pause(d[a + w + 1], 4))
    &&& d.len() <= a + w + 2
}

/// The journal of start-up from the journals of its parts: the reset, the
/// defaults, the antenna and the settling wait, each of which follows only
/// if the one before went through.
proof fn lemma_init_parts(
    reset: Seq<RegOp>,
    writes: Seq<RegOp>,
    antenna: Seq<RegOp>,
    pause: Seq<RegOp>,
)
    requires
        is_reset_run(reset),
        stops_at_fault(reset),
        fault_free(reset) ==> reset_complete(reset),
        writes.len() <= 9,
        writes.len() > 0 ==> fault_free(reset),
        forall|i: int|
            0 <= i < writes.len() ==> asks_write(
                #[trigger] writes[i],
                init_defaults()[i].0,
                init_defaults()[i].1,
            ),
        stops_at_fault(writes),
        antenna.len() > 0 ==> writes.len() == 9 && fault_free(writes) && is_antenna_run(antenna),
        pause.len() <= 1,
        pause.len() == 1 ==> antenna.len() > 0 && fault_free(antenna) && asks_pause(pause[0], 4),
        writes.len() == 0 ==> !fault_free(reset),
        antenna.len() == 0 && writes.len() > 0 ==> !fault_free(writes),
        pause.len() == 0 && antenna.len() > 0 ==> !fault_free(antenna),
    ensures
        is_init_run(reset + writes + antenna + pause, reset.len() as int),
        stops_at_fault(reset + writes + antenna + pause),
        fault_free(reset + writes + antenna + pause) <==> pause.len() == 1,
        pause.len() == 1 ==> init_complete(reset + writes + antenna + pause, reset.len() as int),
{
    let d = reset + writes + antenna + pause;
    let k = reset.len() as int;
    assert(d.take(k) =~= reset);
    assert(forall|i: int| 0 <= i < k ==> d[i] == reset[i]);
    assert(forall|i: int| 0 <= i < writes.len() ==> d[k + i] == writes[i]);
    assert(forall|i: int| 0 <= i < antenna.len() ==> d[k + writes.len() + i] == antenna[i]);
    assert(forall|i: int|
        0 <= i < pause.len() ==> d[k + writes.len() + antenna.len() + i] == pause[i]);
    assert forall|i: int| 0 <= i < 9 && k + i < d.len() implies asks_write(
        #[trigger] d[k + i],
        init_defaults()[i].0,
        init_defaults()[i].1,
    ) by {
        assert(d[k + i] == writes[i]);
    }
    if writes.len() > 0 {
        lemma_run_append(reset, writes);
        if antenna.len() > 0 {
            lemma_run_append(reset + writes, antenna);
            if pause.len() > 0 {
                assert(stops_at_fault(pause));
                lemma_run_append(reset + writes + antenna, pause);
                assert(fault_free(pause));
            } else {
                assert(d =~= reset + writes + antenna);
            }
        } else {
            assert(d =~= reset + writes);
        }
    } else {
        assert(d =~= reset);
    }
    if antenna.len() > 0 {
        assert(d[k + 9] == antenna[0]);
        if antenna.len() == 2 {
            assert(d[k + 10] == antenna[1]);
        }
    }
}

/// A fault-free start-up run is complete when it ends with the settling wait.
pub open spec fn init_complete(d: Seq<RegOp>, k: int) -> bool {
    let a = k + 9;
    let w: int = if d.len() > a && d[a].ok() && value(d[a]) & 0x03 != 0x03 { 1 } else { 0 };
    d.len() == a + w + 2
}

/// The journal of a checksum computation over `data` that polled `p` times:
/// the coprocessor is stopped, its ready flag cleared, the buffer flushed, the
/// data loaded and the computation started; the ready flag is polled until
/// it shows; then the coprocessor is stopped and the two result registers
/// are read, low byte first. A run that a fault cut short, or that gave up
/// polling, holds the part up to there.
pub open spec fn is_crc_run(d: Seq<RegOp>, data: Seq<u8>, p: int) -> bool {
    &&& 0 <= p <= 5000
    &&& d.len() <= 5 + p + 3
    &&& (p > 0 ==> d.len() >= 5 + p)
    &&& (p == 0 ==> d.len() <= 5)
    &&& (d.len() > 0 ==> asks_write(d[0], PCDRegister::CommandReg, PCDCommand::Idle))
    &&& (d.len() > 1 ==> asks_write(d[1], PCDRegister::DivIrqReg, 0x04))
    &&& (d.len() > 2 ==> asks_write(d[2], PCDRegister::FIFOLevelReg, 0x80))
    &&& (d.len() > 3 ==> asks_burst_write(d[3], PCDRegister::FIFODataReg, data))
    &&& (d.len() > 4 ==> asks_write(d[4], PCDRegister::CommandReg, PCDCommand::CalcCRC))
    &&& forall|i: int| 5 <= i < 5 + p ==> asks_read(#[trigger] d[i], PCDRegister::DivIrqReg, 1)
    &&& forall|i: int| 5 <= i < 5 + p - 1 ==> value(#[trigger] d[i]) & 0x04 == 0
    &&& (d.len() > 5 + p ==> value(d[5 + p - 1]) & 0x04 != 0 && asks_write(
        d[5 + p],
        PCDRegister::CommandReg,
        PCDCommand::Idle,
    ))
    &&& (d.len() > 5 + p + 1 ==> asks_read(d[5 + p + 1], PCDRegister::CRCResultRegL, 1))
    &&& (d.len() > 5 + p + 2 ==> asks_read(d[5 + p + 2], PCDRegister::CRCResultRegH, 1))
}

/// How a checksum computation that polled `p` times ends: with the two bytes
/// read from the result registers; with a timeout after 5000 polls that never
/// showed the ready flag; or with a transport error at the first fault.
pub open spec fn crc_outcome(d: Seq<RegOp>, p: int, r: Result<[u8; 2], PCDErrorCode>) -> bool {
    match r {
        Ok(crc) => fault_free(d) && p >= 1 && d.len() == 5 + p + 3 && crc[0] == value(d[5 + p + 1])
            && crc[1] == value(d[5 + p + 2]),
        Err(PCDErrorCode::Timeout) => fault_free(d) && p == 5000 && d.len() == 5 + p && value(
            d[5 + p - 1],
        ) & 0x04 == 0,
        Err(PCDErrorCode::Transport) => !fault_free(d),
        Err(_) => false,
    }
}

/// `d` is the journal of a checksum computation over `data` that polled `p`
/// times and ended with `r`.
#[verifier::opaque]
pub open spec fn is_crc_call(
    d: Seq<RegOp>,
    data: Seq<u8>,
    p: int,
    r: Result<[u8; 2], PCDErrorCode>,
) -> bool {
    is_crc_run(d, data, p) && crc_outcome(d, p, r)
}

/// How many journal entries it takes to arm a command: six writes, and for
/// a transceive the two entries that set the start-send bit.
pub open spec fn arm_len(cmd: u8) -> int {
    if cmd == PCDCommand::Transceive {
        8
    } else {
        6
    }
}

/// The journal of arming a command: the running command is cancelled, all
/// interrupt flags are cleared, the buffer is flushed and loaded with `data`,
/// the bit framing is set and the command is started; for a transceive the
/// start-send bit is then added to the bit framing register.
pub open spec fn is_arm_run(s: Seq<RegOp>, cmd: u8, data: Seq<u8>, framing: u8) -> bool {
    &&& s.len() <= arm_len(cmd)
    &&& stops_at_fault(s)
    &&& (s.len() > 0 ==> asks_write(s[0], PCDRegister::CommandReg, PCDCommand::Idle))
    &&& (s.len() > 1 ==> asks_write(s[1], PCDRegister::ComIrqReg, 0x7F))
    &&& (s.len() > 2 ==> asks_write(s[2], PCDRegister::FIFOLevelReg, 0x80))
    &&& (s.len() > 3 ==> asks_burst_write(s[3], PCDRegister::FIFODataReg, data))
    &&& (s.len() > 4 ==> asks_write(s[4], PCDRegister::BitFramingReg, framing))
    &&& (s.len() > 5 ==> asks_write(s[5], PCDRegister::CommandReg, cmd))
    &&& (s.len() > 6 ==> asks_read(s[6], PCDRegister::BitFramingReg, 1))
    &&& (s.len() > 7 ==> asks_write(s[7], PCDRegister::BitFramingReg, value(s[6]) | 0x80))
}

/// Arming went through.
pub open spec fn arm_complete(s: Seq<RegOp>, cmd: u8) -> bool {
    s.len() == arm_len(cmd) && fault_free(s)
}

/// A value of the interrupt flag register that shows neither a flag waited
/// for nor the timer flag: polling goes on.
pub open spec fn keeps_waiting(flags: u8, wait_irq: u8) -> bool {
    flags & wait_irq == 0 && flags & 0x01 == 0
}

/// The journal of polling the interrupt flags: at most 2000 reads of the
/// flag register, each but the last showing nothing of interest.
pub open spec fn is_poll_run(s: Seq<RegOp>, wait_irq: u8) -> bool {
    &&& s.len() <= 2000
    &&& forall|i: int| 0 <= i < s.len() ==> asks_read(#[trigger] s[i], PCDRegister::ComIrqReg, 1)
    &&& forall|i: int|
        0 <= i < s.len() - 1 ==> (#[trigger] s[i]).ok() && keeps_waiting(value(s[i]), wait_irq)
}

/// Polling ended because a flag waited for showed.
pub open spec fn poll_hit(s: Seq<RegOp>, wait_irq: u8) -> bool {
    s.len() >= 1 && s[s.len() - 1].ok() && value(s[s.len() - 1]) & wait_irq != 0
}

/// Polling ended without a flag waited for: the chip's timer flag showed, or
/// the 2000th read still showed nothing.
pub open spec fn poll_timeout(s: Seq<RegOp>, wait_irq: u8) -> bool {
    &&& s.len() >= 1
    &&& s[s.len() - 1].ok()
    &&& value(s[s.len() - 1]) & wait_irq == 0
    &&& (value(s[s.len() - 1]) & 0x01 != 0 || s.len() == 2000)
}

/// The number of entries of a complete collection of a response of `n` bytes:
/// error register, buffer level, the bytes if there are any, control register.
pub open spec fn collect_len(n: u8) -> int {
    if n > 0 {
        4
    } else {
        3
    }
}

/// The journal of collecting a response into room for `capacity` bytes: the
/// error register is read; unless it shows a protocol, parity or overflow
/// error, or no response is wanted, the buffer level is read; unless that
/// exceeds the room, as many bytes are read from the buffer (no read at all
/// for none) and then the control register.
pub open spec fn is_collect_run(s: Seq<RegOp>, capacity: u8) -> bool {
    let e = value(s[0]);
    let n = value(s[1]);
    &&& s.len() <= collect_len(n)
    &&& stops_at_fault(s)
    &&& (s.len() > 0 ==> asks_read(s[0], PCDRegister::ErrorReg, 1))
    &&& (s.len() > 1 ==> e & 0x13 == 0 && capacity > 0 && asks_read(
        s[1],
        PCDRegister::FIFOLevelReg,
        1,
    ))
    &&& (s.len() > 2 ==> n <= capacity)
    &&& (s.len() > 2 && n > 0 ==> asks_read(s[2], PCDRegister::FIFODataReg, n as nat))
    &&& (s.len() > collect_len(n) - 1 ==> asks_read(
        s[collect_len(n) - 1],
        PCDRegister::ControlReg,
        1,
    ))
}

/// The collection went through: either no response was wanted and the error
/// register showed no error, or the response was read in full.
pub open spec fn collect_complete(s: Seq<RegOp>, capacity: u8) -> bool {
    &&& fault_free(s)
    &&& s.len() >= 1
    &&& value(s[0]) & 0x13 == 0
    &&& if capacity == 0 {
        s.len() == 1
    } else {
        s.len() == collect_len(value(s[1]))
    }
}

/// The bytes that a complete collection delivered, as the chip sent them.
pub open spec fn collected(s: Seq<RegOp>) -> Seq<u8> {
    if s.len() == 4 {
        s[2]->Read_data
    } else {
        Seq::empty()
    }
}

/// What a collection with the journal `s` leaves in the caller's buffer, in
/// the length and in the count of valid bits. Until the buffer level has been
/// read and found to fit, nothing changes. From then on the length is the
/// buffer level; the buffer holds what the burst read stored in it; and the
/// count of valid bits is that of the control register once that has been
/// read.
pub open spec fn collect_outputs(
    s: Seq<RegOp>,
    rx_align: u8,
    back_before: Seq<u8>,
    len_before: u8,
    bits_before: u8,
    back_after: Seq<u8>,
    len_after: u8,
    bits_after: u8,
) -> bool {
    let n = value(s[1]);
    if s.len() < 3 {
        back_after == back_before && len_after == len_before && bits_after == bits_before
    } else {
        &&& len_after == n
        &&& if n > 0 {
            bus::stored_by_read(back_before, s[2].events(), n as nat, rx_align, back_after)
        } else {
            back_after == back_before
        }
        &&& bits_after == (if s.len() == collect_len(n) && s[s.len() - 1].ok() {
            value(s[s.len() - 1]) & 0x07
        } else {
            bits_before
        })
    }
}

/// What the buffer holds after `data` was received into it: the first byte
/// laid over what was there with respect to `rx_align`, the others as they
/// came, and the rest of the buffer as it was.
pub open spec fn received_into(
    before: Seq<u8>,
    data: Seq<u8>,
    rx_align: u8,
    after: Seq<u8>,
) -> bool {
    &&& after.len() == before.len()
    &&& data.len() <= before.len()
    &&& (data.len() > 0 ==> after[0] == crate::bus::align_merge(before[0], data[0], rx_align))
    &&& forall|j: int| 1 <= j < data.len() ==> after[j] == data[j]
    &&& forall|j: int| data.len() <= j < before.len() ==> after[j] == before[j]
}

/// The bit framing byte: where the first received bit goes, in the high
/// half, and how many bits of the last byte are sent, in the low half.
pub open spec fn bit_framing(rx_align: u8, tx_last_bits: u8) -> u8 {
    ((rx_align << 4) + tx_last_bits) as u8
}

/// One call of the command engine: what it was asked, and what it gave back.
pub struct CommandCall {
    pub cmd: u8,
    pub wait_irq: u8,
    /// The bytes to send.
    pub data: Seq<u8>,
    /// How many bits of the last byte to send; 0 for all.
    pub tx_last_bits: u8,
    pub rx_align: u8,
    /// Room for the response; 0 if none is wanted.
    pub capacity: u8,
    pub check_crc: bool,
    /// The response buffer before and after the call.
    pub back_before: Seq<u8>,
    pub back_after: Seq<u8>,
    /// The length of the response.
    pub len_after: u8,
    /// How many bits of the last response byte are valid; 0 for all.
    pub bits_after: u8,
    pub result: Result<bool, PCDErrorCode>,
}

/// Where the phases of one call of the command engine end in its journal,
/// and how the checksum computation inside it went, if there was one.
pub struct CommandCuts {
    pub armed: int,
    pub polled: int,
    pub collected: int,
    pub crc_polls: int,
    pub crc: Result<[u8; 2], PCDErrorCode>,
}

/// `d` is the journal of the call `c`, with its phases ending at `k`.
///
/// The phases follow each other: arming, polling, collecting, and the
/// checksum computation. Each starts only if the one before went through,
/// and the checksum is computed only over a collision-free response of at
/// least two full bytes when the caller asked for the check. The result is
/// the first failure in that order, or else whether the chip saw a collision.
#[verifier::opaque]
pub open spec fn is_command_call(d: Seq<RegOp>, c: CommandCall, k: CommandCuts) -> bool {
    let arm = d.subrange(0, k.armed);
    let poll = d.subrange(k.armed, k.polled);
    let coll = d.subrange(k.polled, k.collected);
    let chk = d.subrange(k.collected, d.len() as int);
    let e = value(coll[0]);
    let n = value(coll[1]);
    let wants_check = collect_complete(coll, c.capacity) && c.capacity > 0 && c.check_crc && e
        & 0x08 == 0;
    &&& 0 <= k.armed <= k.polled <= k.collected <= d.len()
    &&& is_arm_run(arm, c.cmd, c.data, bit_framing(c.rx_align, c.tx_last_bits))
    &&& is_poll_run(poll, c.wait_irq)
    &&& is_collect_run(coll, c.capacity)
    &&& (k.polled > k.armed ==> arm_complete(arm, c.cmd))
    &&& (k.collected > k.polled ==> poll_hit(poll, c.wait_irq))
    &&& (d.len() > k.collected ==> wants_check && n >= 2 && c.bits_after == 0 && is_crc_call(
        chk,
        c.back_after.take(n - 2),
        k.crc_polls,
        k.crc,
    ))
    &&& collect_outputs(
        coll,
        c.rx_align,
        c.back_before,
        c.capacity,
        c.tx_last_bits,
        c.back_after,
        c.len_after,
        c.bits_after,
    )
    &&& (collect_complete(coll, c.capacity) ==> received_into(
        c.back_before,
        collected(coll),
        c.rx_align,
        c.back_after,
    ))
    &&& match c.result {
        Err(PCDErrorCode::Transport) => !fault_free(d),
        Err(PCDErrorCode::Timeout) => fault_free(d) && (if d.len() > k.collected {
            k.crc == Err::<[u8; 2], PCDErrorCode>(PCDErrorCode::Timeout)
        } else {
            k.collected == k.polled && poll_timeout(poll, c.wait_irq)
        }),
        Err(PCDErrorCode::Protocol) => fault_free(d) && d.len() == k.collected && coll.len() == 1
            && e & 0x13 != 0,
        Err(PCDErrorCode::Overflow) => fault_free(d) && d.len() == k.collected && coll.len() == 2
            && n > c.capacity,
        Err(PCDErrorCode::CrcMismatch) => fault_free(d) && wants_check && (if d.len()
            > k.collected {
            k.crc is Ok && (k.crc->Ok_0[0] != c.back_after[n - 2] || k.crc->Ok_0[1]
                != c.back_after[n - 1])
        } else {
            n < 2 || c.bits_after != 0
        }),
        Ok(collision) => fault_free(d) && collect_complete(coll, c.capacity) && collision == (e
            & 0x08 != 0) && (if d.len() > k.collected {
            k.crc is Ok && k.crc->Ok_0[0] == c.back_after[n - 2] && k.crc->Ok_0[1]
                == c.back_after[n - 1]
        } else {
            !wants_check
        }),
        Err(_) => false,
    }
}

/// The journal of a self-test that polled `p` times and whose closing
/// start-up began with a reset of `k` entries: the buffer is flushed and
/// loaded with 25 zero bytes, which are moved to the internal memory; the
/// self-test is enabled, one more zero byte is loaded and the checksum
/// command starts the test; the buffer level is polled up to 255 times until
/// it shows 64 bytes; the command is cancelled, the 64 bytes are read, the
/// self-test is disabled and the chip is started up again.
pub open spec fn is_selftest_run(d: Seq<RegOp>, p: int, k: int) -> bool {
    &&& 0 <= p <= 255
    &&& (p > 0 ==> d.len() >= 6 + p)
    &&& (p == 0 ==> d.len() <= 6)
    &&& (d.len() > 0 ==> asks_write(d[0], PCDRegister::FIFOLevelReg, 0x80))
    &&& (d.len() > 1 ==> asks_burst_write(
        d[1],
        PCDRegister::FIFODataReg,
        Seq::new(25, |i: int| 0u8),
    ))
    &&& (d.len() > 2 ==> asks_write(d[2], PCDRegister::CommandReg, PCDCommand::Mem))
    &&& (d.len() > 3 ==> asks_write(d[3], PCDRegister::AutoTestReg, 0x09))
    &&& (d.len() > 4 ==> asks_write(d[4], PCDRegister::FIFODataReg, 0x00))
    &&& (d.len() > 5 ==> asks_write(d[5], PCDRegister::CommandReg, PCDCommand::CalcCRC))
    &&& forall|i: int| 6 <= i < 6 + p ==> asks_read(#[trigger] d[i], PCDRegister::FIFOLevelReg, 1)
    &&& forall|i: int| 6 <= i < 6 + p - 1 ==> value(#[trigger] d[i]) < 64
    &&& (d.len() > 6 + p ==> (value(d[6 + p - 1]) >= 64 || p == 255) && asks_write(
        d[6 + p],
        PCDRegister::CommandReg,
        PCDCommand::Idle,
    ))
    &&& (d.len() > 7 + p ==> asks_read(d[7 + p], PCDRegister::FIFODataReg, 64))
    &&& (d.len() > 8 + p ==> asks_write(d[8 + p], PCDRegister::AutoTestReg, 0x00))
    &&& (d.len() > 9 + p ==> is_init_run(d.skip(9 + p), k))
}

/// `d` is the journal of a self-test that ended with `r`: the 64 bytes read
/// from the buffer if nothing failed up to the end of the closing start-up,
/// and a transport error otherwise.
pub open spec fn is_selftest_call(
    d: Seq<RegOp>,
    p: int,
    k: int,
    r: Result<[u8; 64], PCDErrorCode>,
) -> bool {
    &&& is_selftest_run(d, p, k)
    &&& match r {
        Ok(digest) => fault_free(d) && d.len() > 9 + p && init_complete(d.skip(9 + p), k)
            && digest@ == d[7 + p]->Read_data,
        Err(PCDErrorCode::Transport) => !fault_free(d),
        Err(_) => false,
    }
}

/// Cuts for a call of which nothing is on record.
pub open spec fn no_cuts() -> CommandCuts {
    CommandCuts {
        armed: 0,
        polled: 0,
        collected: 0,
        crc_polls: 0,
        crc: Err(PCDErrorCode::Transport),
    }
}

impl CommandCall {
    /// The call with what it gave back filled in.
    pub open spec fn ended(
        self,
        back_after: Seq<u8>,
        len_after: u8,
        bits_after: u8,
        result: Result<bool, PCDErrorCode>,
    ) -> CommandCall {
        CommandCall { back_after, len_after, bits_after, result, ..self }
    }
}

impl<B: Bus> MFRC522<B> {
    /// Resets the chip and waits for it to leave power-down.
    ///
    /// The command register is looked at up to three times, 50 ms apart. The
    /// first look that shows the power-down bit clear ends the wait at once.
    /// If the bit still shows after the third look the function returns
    /// without an error all the same.
    pub fn pcd_reset(&mut self) -> (r: Result<(), PCDErrorCode>)
        ensures
            final(self).extends(old(self)),
            is_reset_run(final(self).journal_since(old(self))),
            stops_at_fault(final(self).journal_since(old(self))),
            r is Ok <==> fault_free(final(self).journal_since(old(self))),
            r is Ok ==> reset_complete(final(self).journal_since(old(self))),
            r is Err ==> r == Err::<(), PCDErrorCode>(PCDErrorCode::Transport),
    {
        let ghost n0 = self.journal().len() as int;
        match self.write_reg(PCDRegister::CommandReg, PCDCommand::SoftReset) {
            Ok(()) => {},
            Err(e) => {
                return Err(e);
            },
        }
        let mut tries: u8 = 0;
        while tries < 3
            invariant
                tries <= 3,
                n0 == old(self).journal().len(),
                self.extends(old(self)),
                self.journal().len() == n0 + 1 + 2 * tries,
                is_reset_run(self.journal_since(old(self))),
                fault_free(self.journal_since(old(self))),
                tries > 0 ==> self.journal()[n0 + 2 * tries] is Pause,
            decreases 3 - tries,
        {
            let ghost d0 = self.journal_since(old(self));
            match self.read_reg(PCDRegister::CommandReg) {
                Ok(out) => {
                    if out & 0x10 == 0 {
                        proof {
                            let d = self.journal_since(old(self));
                            assert(forall|i: int| 0 <= i < d0.len() ==> d[i] == d0[i]);
                            lemma_reset_run_grows(d0, d);
                        }
                        return Ok(());
                    }
                    self.sleep(50);
                    proof {
                        let d = self.journal_since(old(self));
                        assert(forall|i: int| 0 <= i < d0.len() ==> d[i] == d0[i]);
                        lemma_reset_run_grows(d0, d);
                    }
                },
                Err(e) => {
                    proof {
                        let d = self.journal_since(old(self));
                        assert(forall|i: int| 0 <= i < d0.len() ==> d[i] == d0[i]);
                        lemma_reset_run_grows(d0, d);
                        assert(!d[d.len() - 1].ok());
                    }
                    return Err(e);
                },
            }
            tries += 1;
        }
        Ok(())
    }

    /// Switches the antenna drivers on unless both are on already.
    pub fn pcd_antenna_on(&mut self) -> (r: Result<(), PCDErrorCode>)
        ensures
            final(self).extends(old(self)),
            is_antenna_run(final(self).journal_since(old(self))),
            r is Ok <==> fault_free(final(self).journal_since(old(self))),
            r is Err ==> r == Err::<(), PCDErrorCode>(PCDErrorCode::Transport),
    {
        match self.read_reg(PCDRegister::TxControlReg) {
            Ok(val) => {
                if (val & 0x03) != 0x03 {
                    self.write_reg(PCDRegister::TxControlReg, val | 0x03)
                } else {
                    Ok(())
                }
            },
            Err(e) => Err(e),
        }
    }

    /// Writes each value of `regs` to its register, in order, up to the
    /// first fault.
    fn write_regs(&mut self, regs: &[(u8, u8)]) -> (r: Result<(), PCDErrorCode>)
        ensures
            final(self).extends(old(self)),
            final(self).journal_since(old(self)).len() <= regs@.len(),
            forall|i: int|
                0 <= i < final(self).journal_since(old(self)).len() ==> asks_write(
                    #[trigger] final(self).journal_since(old(self))[i],
                    regs@[i].0,
                    regs@[i].1,
                ),
            stops_at_fault(final(self).journal_since(old(self))),
            r is Ok <==> fault_free(final(self).journal_since(old(self))) && final(self)
                .journal_since(old(self)).len() == regs@.len(),
            r is Err ==> r == Err::<(), PCDErrorCode>(PCDErrorCode::Transport) && !fault_free(
                final(self).journal_since(old(self)),
            ),
    {
        let ghost n0 = self.journal().len() as int;
        let mut i: usize = 0;
        while i < regs.len()
            invariant
                i <= regs@.len(),
                n0 == old(self).journal().len(),
                self.extends(old(self)),
                self.journal().len() == n0 + i,
                fault_free(self.journal_since(old(self))),
                forall|j: int|
                    0 <= j < i ==> asks_write(
                        #[trigger] self.journal_since(old(self))[j],
                        regs@[j].0,
                        regs@[j].1,
                    ),
            decreases regs@.len() - i,
        {
            let ghost d0 = self.journal_since(old(self));
            let (reg, val) = regs[i];
            match self.write_reg(reg, val) {
                Ok(()) => {
                    proof {
                        let d = self.journal_since(old(self));
                        assert(forall|j: int| 0 <= j < d0.len() ==> d[j] == d0[j]);
                    }
                },
                Err(e) => {
                    proof {
                        let d = self.journal_since(old(self));
                        assert(forall|j: int| 0 <= j < d0.len() ==> d[j] == d0[j]);
                        assert(!d[d.len() - 1].ok());
                    }
                    return Err(e);
                },
            }
            i += 1;
        }
        Ok(())
    }

    /// Brings the chip into its working state: reset, transmit and receive
    /// defaults, timer and modulation settings, antenna on, and a settling
    /// wait of 4 ms.
    pub fn pcd_init(&mut self) -> (r: Result<(), PCDErrorCode>)
        ensures
            final(self).extends(old(self)),
            stops_at_fault(final(self).journal_since(old(self))),
            exists|k: int| #[trigger]
                is_init_run(final(self).journal_since(old(self)), k) && (r is Ok ==> init_complete(
                    final(self).journal_since(old(self)),
                    k,
                )),
            r is Ok <==> fault_free(final(self).journal_since(old(self))),
            r is Err ==> r == Err::<(), PCDErrorCode>(PCDErrorCode::Transport),
    {
        let ghost s0 = *self;
        let ghost nothing = Seq::<RegOp>::empty();
        if let Err(e) = self.pcd_reset() {
            proof {
                lemma_init_parts(self.journal_since(&s0), nothing, nothing, nothing);
            }
            return Err(e);
        }
        let ghost s1 = *self;
        let defaults: [(u8, u8); 9] = [
            (PCDRegister::TxModeReg, 0x00),
            (PCDRegister::RxModeReg, 0x00),
            (PCDRegister::ModWidthReg, 0x26),
            (PCDRegister::TModeReg, 0x80),
            (PCDRegister::TPrescalerReg, 0xA9),
            (PCDRegister::TReloadRegH, 0x03),
            (PCDRegister::TReloadRegL, 0xE8),
            (PCDRegister::TxASKReg, 0x40),
            (PCDRegister::ModeReg, 0x3D),
        ];
        assert(defaults@ =~= init_defaults());
        let written = self.write_regs(&defaults);
        let ghost s2 = *self;
        proof {
            Self::lemma_since_concat(&s0, &s1, &s2);
        }
        if let Err(e) = written {
            proof {
                lemma_init_parts(
                    s1.journal_since(&s0),
                    s2.journal_since(&s1),
                    nothing,
                    nothing,
                );
                assert(self.journal_since(&s0) =~= s1.journal_since(&s0) + s2.journal_since(&s1)
                    + nothing + nothing);
            }
            return Err(e);
        }
        let switched = self.pcd_antenna_on();
        let ghost s3 = *self;
        proof {
            Self::lemma_since_concat(&s0, &s2, &s3);
        }
        if let Err(e) = switched {
            proof {
                lemma_init_parts(
                    s1.journal_since(&s0),
                    s2.journal_since(&s1),
                    s3.journal_since(&s2),
                    nothing,
                );
                assert(self.journal_since(&s0) =~= s1.journal_since(&s0) + s2.journal_since(&s1)
                    + s3.journal_since(&s2) + nothing);
            }
            return Err(e);
        }
        self.sleep(4);
        proof {
            let s4 = *self;
            Self::lemma_since_concat(&s0, &s3, &s4);
            lemma_init_parts(
                s1.journal_since(&s0),
                s2.journal_since(&s1),
                s3.journal_since(&s2),
                s4.journal_since(&s3),
            );
            assert(self.journal_since(&s0) =~= s1.journal_since(&s0) + s2.journal_since(&s1)
                + s3.journal_since(&s2) + s4.journal_since(&s3));
        }
        Ok(())
    }

    /// Cancels what the chip is doing, loads the buffer and starts `cmd`.
    fn arm_command(&mut self, cmd: u8, send_data: &[u8], send_len: u8, framing: u8) -> (r: Result<
        (),
        PCDErrorCode,
    >)
        requires
            send_len <= send_data@.len(),
        ensures
            final(self).extends(old(self)),
            is_arm_run(
                final(self).journal_since(old(self)),
                cmd,
                send_data@.take(send_len as int),
                framing,
            ),
            r is Ok <==> arm_complete(final(self).journal_since(old(self)), cmd),
            r is Err ==> r == Err::<(), PCDErrorCode>(PCDErrorCode::Transport) && !fault_free(
                final(self).journal_since(old(self)),
            ),
    {
        let mut step = self.write_reg(PCDRegister::CommandReg, PCDCommand::Idle);
        if step.is_ok() {
            step = self.write_reg(PCDRegister::ComIrqReg, 0x7F);
        }
        if step.is_ok() {
            step = self.write_reg(PCDRegister::FIFOLevelReg, 0x80);
        }
        if step.is_ok() {
            step = self.write_reg_buff(PCDRegister::FIFODataReg, send_len as usize, send_data);
        }
        if step.is_ok() {
            step = self.write_reg(PCDRegister::BitFramingReg, framing);
        }
        if step.is_ok() {
            step = self.write_reg(PCDRegister::CommandReg, cmd);
        }
        if step.is_ok() && cmd == PCDCommand::Transceive {
            step = self.pcd_set_register_bit_mask(PCDRegister::BitFramingReg, 0x80);
        }
        proof {
            let d = self.journal_since(old(self));
            if step is Err {
                assert(!d[d.len() - 1].ok());
            }
        }
        step
    }

    /// Polls the interrupt flags until one of `wait_irq` shows.
    fn await_irq(&mut self, wait_irq: u8) -> (r: Result<(), PCDErrorCode>)
        ensures
            final(self).extends(old(self)),
            is_poll_run(final(self).journal_since(old(self)), wait_irq),
            match r {
                Ok(()) => poll_hit(final(self).journal_since(old(self)), wait_irq),
                Err(PCDErrorCode::Timeout) => poll_timeout(
                    final(self).journal_since(old(self)),
                    wait_irq,
                ),
                Err(PCDErrorCode::Transport) => final(self).journal_since(old(self)).len() >= 1
                    && !final(self).journal_since(old(self)).last().ok(),
                Err(_) => false,
            },
    {
        let ghost n0 = self.journal().len() as int;
        let mut polls: u16 = 0;
        while polls < 2000
            invariant
                polls <= 2000,
                n0 == old(self).journal().len(),
                self.extends(old(self)),
                self.journal().len() == n0 + polls,
                is_poll_run(self.journal_since(old(self)), wait_irq),
                polls > 0 ==> self.journal()[n0 + polls - 1].ok() && keeps_waiting(
                    value(self.journal()[n0 + polls - 1]),
                    wait_irq,
                ),
            decreases 2000 - polls,
        {
            let ghost d0 = self.journal_since(old(self));
            let got = self.read_reg(PCDRegister::ComIrqReg);
            proof {
                let d = self.journal_since(old(self));
                assert(forall|i: int| 0 <= i < d0.len() ==> d[i] == d0[i]);
                assert(is_poll_run(d, wait_irq));
            }
            match got {
                Ok(n) => {
                    if n & wait_irq != 0 {
                        return Ok(());
                    }
                    if n & 0x01 != 0 {
                        return Err(PCDErrorCode::Timeout);
                    }
                },
                Err(e) => {
                    return Err(e);
                },
            }
            polls += 1;
        }
        Err(PCDErrorCode::Timeout)
    }

    /// Reads the error register and, where a response is wanted, the response.
    /// Returns the value of the error register.
    fn collect_response(
        &mut self,
        back_data: &mut [u8],
        back_len: &mut u8,
        valid_bits: &mut u8,
        rx_align: u8,
    ) -> (r: Result<u8, PCDErrorCode>)
        requires
            *old(back_len) <= old(back_data)@.len(),
            rx_align <= 7,
        ensures
            final(self).extends(old(self)),
            final(back_data)@.len() == old(back_data)@.len(),
            is_collect_run(final(self).journal_since(old(self)), *old(back_len)),
            collect_outputs(
                final(self).journal_since(old(self)),
                rx_align,
                old(back_data)@,
                *old(back_len),
                *old(valid_bits),
                final(back_data)@,
                *final(back_len),
                *final(valid_bits),
            ),
            match r {
                Ok(e) => {
                    let s = final(self).journal_since(old(self));
                    &&& collect_complete(s, *old(back_len))
                    &&& e == value(s[0])
                    &&& received_into(old(back_data)@, collected(s), rx_align, final(back_data)@)
                    &&& if *old(back_len) == 0 {
                        *final(back_len) == 0 && *final(valid_bits) == *old(valid_bits)
                    } else {
                        *final(back_len) == value(s[1]) && *final(valid_bits) == value(
                            s[s.len() - 1],
                        ) & 0x07 && *final(valid_bits) <= 7 && collected(s).len() == value(s[1])
                    }
                },
                Err(PCDErrorCode::Protocol) => {
                    let s = final(self).journal_since(old(self));
                    s.len() == 1 && s[0].ok() && value(s[0]) & 0x13 != 0
                },
                Err(PCDErrorCode::Overflow) => {
                    let s = final(self).journal_since(old(self));
                    s.len() == 2 && fault_free(s) && value(s[1]) > *old(back_len)
                },
                Err(PCDErrorCode::Transport) => !fault_free(final(self).journal_since(old(self))),
                Err(_) => false,
            },
    {
        let error_reg_value = match self.read_reg(PCDRegister::ErrorReg) {
            Ok(v) => v,
            Err(e) => {
                proof {
                    let d = self.journal_since(old(self));
                    assert(!d[0].ok());
                }
                return Err(e);
            },
        };
        if error_reg_value & 0x13 != 0 {
            return Err(PCDErrorCode::Protocol);
        }
        if *back_len == 0 {
            proof {
                assert(received_into(old(back_data)@, Seq::<u8>::empty(), rx_align, back_data@));
            }
            return Ok(error_reg_value);
        }
        let n = match self.read_reg(PCDRegister::FIFOLevelReg) {
            Ok(v) => v,
            Err(e) => {
                proof {
                    let d = self.journal_since(old(self));
                    assert(!d[1].ok());
                }
                return Err(e);
            },
        };
        if n > *back_len {
            return Err(PCDErrorCode::Overflow);
        }
        *back_len = n;
        let ghost s1 = *self;
        let read = self.read_reg_buff(PCDRegister::FIFODataReg, n as usize, back_data, rx_align);
        let ghost s2 = *self;
        proof {
            let d = self.journal_since(old(self));
            if n > 0 {
                assert(d[2] == s2.journal().last());
                assert(d[2].events() == s2.wire_since(&s1));
            }
        }
        if let Err(e) = read {
            proof {
                let d = self.journal_since(old(self));
                assert(!d[2].ok());
            }
            return Err(e);
        }
        let control = match self.read_reg(PCDRegister::ControlReg) {
            Ok(v) => v,
            Err(e) => {
                proof {
                    let d = self.journal_since(old(self));
                    assert(!d[d.len() - 1].ok());
                    if n > 0 {
                        assert(d[2] == s2.journal().last());
                    }
                }
                return Err(e);
            },
        };
        *valid_bits = control & 0x07;
        proof {
            let v = control;
            assert(v & 0x07 <= 7) by (bit_vector);
            let d = self.journal_since(old(self));
            assert(collect_complete(d, *old(back_len)));
            if n > 0 {
                assert(d[2] == s2.journal().last());
            }
            assert(received_into(old(back_data)@, collected(d), rx_align, back_data@));
        }
        Ok(error_reg_value)
    }

    /// Runs one command of the chip that sends `send_data[..send_len]` and,
    /// where `*back_len` is above zero, receives into `back_data`: arms the
    /// command, polls the interrupt flags for one of `wait_irq`, and collects
    /// the response.
    ///
    /// On entry `*back_len` is the room in `back_data` and `*valid_bits` the
    /// number of bits of the last byte to send (0 for all). On success
    /// `*back_len` is the length of the response and `*valid_bits` the number
    /// of valid bits in its last byte (0 for all). The result is `true` if the
    /// chip saw a collision; the checksum of the response is then not looked
    /// at. With `check_crc` the last two bytes of a collision-free response
    /// must be the checksum of those before them.
    #[verifier::rlimit(30)]
    pub fn pcd_communicate_with_picc(
        &mut self,
        cmd: u8,
        wait_irq: u8,
        send_data: &[u8],
        send_len: u8,
        back_data: &mut [u8],
        back_len: &mut u8,
        valid_bits: &mut u8,
        rx_align: u8,
        check_crc: bool,
    ) -> (r: Result<bool, PCDErrorCode>)
        requires
            send_len <= send_data@.len(),
            *old(back_len) <= old(back_data)@.len(),
            *old(valid_bits) <= 7,
            rx_align <= 7,
        ensures
            final(self).extends(old(self)),
            stops_at_fault(final(self).journal_since(old(self))),
            final(back_data)@.len() == old(back_data)@.len(),
            r is Ok ==> *final(back_len) <= *old(back_len) && *final(valid_bits) <= 7,
            r is Ok ==> forall|j: int|
                *final(back_len) <= j < old(back_data)@.len() ==>
                    final(back_data)@[j] == old(back_data)@[j],
            final(self).journal_since(old(self)).len() > 0,
            r == Err::<bool, PCDErrorCode>(PCDErrorCode::Transport) <==> !fault_free(
                final(self).journal_since(old(self)),
            ),
            r is Err ==> r->Err_0 == PCDErrorCode::Transport || r->Err_0 == PCDErrorCode::Timeout
                || r->Err_0 == PCDErrorCode::Protocol || r->Err_0 == PCDErrorCode::Overflow
                || r->Err_0 == PCDErrorCode::CrcMismatch,
            !check_crc ==> r != Err::<bool, PCDErrorCode>(PCDErrorCode::CrcMismatch),
            *old(back_len) == 0 && r is Ok ==> *final(back_len) == 0
                && *final(valid_bits) == *old(valid_bits) && final(back_data)@ == old(back_data)@,
            exists|k: CommandCuts| #[trigger]
                is_command_call(
                    final(self).journal_since(old(self)),
                    (CommandCall {
                        cmd,
                        wait_irq,
                        data: send_data@.take(send_len as int),
                        tx_last_bits: *old(valid_bits),
                        rx_align,
                        capacity: *old(back_len),
                        check_crc,
                        back_before: old(back_data)@,
                        back_after: final(back_data)@,
                        len_after: *final(back_len),
                        bits_after: *final(valid_bits),
                        result: r,
                    }),
                    k,
                ),
    {
        let tx_last_bits = *valid_bits;
        let capacity = *back_len;
        let ghost asked = CommandCall {
            cmd,
            wait_irq,
            data: send_data@.take(send_len as int),
            tx_last_bits,
            rx_align,
            capacity,
            check_crc,
            back_before: back_data@,
            back_after: back_data@,
            len_after: capacity,
            bits_after: tx_last_bits,
            result: Ok(false),
        };
        proof {
            reveal(is_command_call);
        }
        assert((rx_align << 4) <= 0x70) by (bit_vector)
            requires
                rx_align <= 7,
        ;
        let framing = (rx_align << 4) + tx_last_bits;
        let ghost none = Err::<[u8; 2], PCDErrorCode>(PCDErrorCode::Transport);
        let ghost s0 = *self;

        let armed = self.arm_command(cmd, send_data, send_len, framing);
        let ghost s1 = *self;
        let ghost i1 = self.journal_since(&s0).len() as int;
        if let Err(e) = armed {
            proof {
                let d = self.journal_since(&s0);
                let k = CommandCuts {
                    armed: i1,
                    polled: i1,
                    collected: i1,
                    crc_polls: 0,
                    crc: none,
                };
                assert(d.subrange(0, i1) =~= d);
                assert(d.subrange(i1, i1) =~= Seq::<RegOp>::empty());
                let call = asked.ended(back_data@, *back_len, *valid_bits, Err(e));
                assert(is_command_call(d, call, k));
            }
            return Err(e);
        }
        let polled = self.await_irq(wait_irq);
        let ghost s2 = *self;
        let ghost i2 = self.journal_since(&s0).len() as int;
        proof {
            Self::lemma_since_concat(&s0, &s1, &s2);
        }
        if let Err(e) = polled {
            proof {
                let d = self.journal_since(&s0);
                let k = CommandCuts {
                    armed: i1,
                    polled: i2,
                    collected: i2,
                    crc_polls: 0,
                    crc: none,
                };
                assert(d.subrange(0, i1) =~= s1.journal_since(&s0));
                assert(d.subrange(i1, i2) =~= s2.journal_since(&s1));
                assert(d.subrange(i2, i2) =~= Seq::<RegOp>::empty());
                if e == PCDErrorCode::Transport {
                    assert(!d[d.len() - 1].ok());
                }
                let call = asked.ended(back_data@, *back_len, *valid_bits, Err(e));
                assert(is_command_call(d, call, k));
            }
            return Err(e);
        }
        let got = self.collect_response(back_data, back_len, valid_bits, rx_align);
        let ghost s3 = *self;
        let ghost i3 = self.journal_since(&s0).len() as int;
        proof {
            Self::lemma_since_concat(&s0, &s2, &s3);
            let d = self.journal_since(&s0);
            assert(d.subrange(0, i1) =~= s1.journal_since(&s0));
            assert(d.subrange(i1, i2) =~= s2.journal_since(&s1));
            assert(d.subrange(i2, i3) =~= s3.journal_since(&s2));
            assert(d.subrange(i3, i3) =~= Seq::<RegOp>::empty());
        }
        let error_reg_value = match got {
            Ok(v) => v,
            Err(e) => {
                proof {
                    let d = self.journal_since(&s0);
                    let k = CommandCuts {
                        armed: i1,
                        polled: i2,
                        collected: i3,
                        crc_polls: 0,
                        crc: none,
                    };
                    let coll = s3.journal_since(&s2);
                    if e == PCDErrorCode::Transport {
                        assert(!fault_free(d)) by {
                            let j = choose|j: int|
                                0 <= j < coll.len() && !(#[trigger] coll[j]).ok();
                            assert(d[i2 + j] == coll[j]);
                        }
                    }
                    let call = asked.ended(back_data@, *back_len, *valid_bits, Err(e));
                assert(is_command_call(d, call, k));
                }
                return Err(e);
            },
        };
        let collision = error_reg_value & 0x08 != 0;
        if collision || capacity == 0 || !check_crc {
            proof {
                let d = self.journal_since(&s0);
                let k = CommandCuts {
                    armed: i1,
                    polled: i2,
                    collected: i3,
                    crc_polls: 0,
                    crc: none,
                };
                let call = asked.ended(back_data@, *back_len, *valid_bits, Ok(collision));
                assert(is_command_call(d, call, k));
            }
            return Ok(collision);
        }
        let n = *back_len;
        if n < 2 || *valid_bits != 0 {
            proof {
                let d = self.journal_since(&s0);
                let k = CommandCuts {
                    armed: i1,
                    polled: i2,
                    collected: i3,
                    crc_polls: 0,
                    crc: none,
                };
                let refused = Err(PCDErrorCode::CrcMismatch);
                let call = asked.ended(back_data@, *back_len, *valid_bits, refused);
                assert(is_command_call(d, call, k));
            }
            return Err(PCDErrorCode::CrcMismatch);
        }
        let crc = self.pcd_calc_crc(back_data, n - 2);
        let ghost s4 = *self;
        let r = match crc {
            Ok(sum) => {
                if back_data[n as usize - 2] != sum[0] || back_data[n as usize - 1] != sum[1] {
                    Err(PCDErrorCode::CrcMismatch)
                } else {
                    Ok(false)
                }
            },
            Err(e) => Err(e),
        };
        proof {
            Self::lemma_since_concat(&s0, &s3, &s4);
            let d = self.journal_since(&s0);
            let chk = s4.journal_since(&s3);
            let payload = back_data@.take(n - 2);
            let q = choose|q: int| #[trigger] is_crc_call(chk, payload, q, crc);
            let k = CommandCuts { armed: i1, polled: i2, collected: i3, crc_polls: q, crc };
            assert(d.subrange(0, i1) =~= s1.journal_since(&s0));
            assert(d.subrange(i1, i2) =~= s2.journal_since(&s1));
            assert(d.subrange(i2, i3) =~= s3.journal_since(&s2));
            assert(d.subrange(i3, d.len() as int) =~= chk);
            assert(chk.len() > 0);
            assert(stops_at_fault(d));
            assert(fault_free(d) <==> fault_free(chk)) by {
                if fault_free(d) {
                    assert forall|j: int| 0 <= j < chk.len() implies (#[trigger] chk[j]).ok() by {
                        assert(chk[j] == d[i3 + j]);
                    }
                }
                if fault_free(chk) {
                    let d3 = s3.journal_since(&s0);
                    assert forall|j: int| 0 <= j < d.len() implies (#[trigger] d[j]).ok() by {
                        if j >= i3 {
                            assert(d[j] == chk[j - i3]);
                        } else {
                            assert(d[j] == d3[j]);
                        }
                    }
                }
            }
            assert(is_command_call(d, asked.ended(back_data@, *back_len, *valid_bits, r), k));
        }
        r
    }

    /// Sends `send_data[..send_len]` to the card and receives its answer:
    /// the command engine with the transceive command, waiting for the
    /// receive-complete or the idle flag.
    pub fn pcd_transceive_data(
        &mut self,
        send_data: &[u8],
        send_len: u8,
        back_data: &mut [u8],
        back_len: &mut u8,
        valid_bits: &mut u8,
        rx_align: u8,
        check_crc: bool,
    ) -> (r: Result<bool, PCDErrorCode>)
        requires
            send_len <= send_data@.len(),
            *old(back_len) <= old(back_data)@.len(),
            *old(valid_bits) <= 7,
            rx_align <= 7,
        ensures
            final(self).extends(old(self)),
            stops_at_fault(final(self).journal_since(old(self))),
            final(back_data)@.len() == old(back_data)@.len(),
            r is Ok ==> *final(back_len) <= *old(back_len) && *final(valid_bits) <= 7,
            r is Ok ==> forall|j: int|
                *final(back_len) <= j < old(back_data)@.len() ==>
                    final(back_data)@[j] == old(back_data)@[j],
            final(self).journal_since(old(self)).len() > 0,
            r == Err::<bool, PCDErrorCode>(PCDErrorCode::Transport) <==> !fault_free(
                final(self).journal_since(old(self)),
            ),
            r is Err ==> r->Err_0 == PCDErrorCode::Transport || r->Err_0 == PCDErrorCode::Timeout
                || r->Err_0 == PCDErrorCode::Protocol || r->Err_0 == PCDErrorCode::Overflow
                || r->Err_0 == PCDErrorCode::CrcMismatch,
            !check_crc ==> r != Err::<bool, PCDErrorCode>(PCDErrorCode::CrcMismatch),
            *old(back_len) == 0 && r is Ok ==> *final(back_len) == 0
                && *final(valid_bits) == *old(valid_bits) && final(back_data)@ == old(back_data)@,
            exists|k: CommandCuts| #[trigger]
                is_command_call(
                    final(self).journal_since(old(self)),
                    (CommandCall {
                        cmd: PCDCommand::Transceive,
                        wait_irq: 0x30,
                        data: send_data@.take(send_len as int),
                        tx_last_bits: *old(valid_bits),
                        rx_align,
                        capacity: *old(back_len),
                        check_crc,
                        back_before: old(back_data)@,
                        back_after: final(back_data)@,
                        len_after: *final(back_len),
                        bits_after: *final(valid_bits),
                        result: r,
                    }),
                    k,
                ),
    {
        let wait_irq: u8 = 0x30;
        self.pcd_communicate_with_picc(
            PCDCommand::Transceive,
            wait_irq,
            send_data,
            send_len,
            back_data,
            back_len,
            valid_bits,
            rx_align,
            check_crc,
        )
    }

    /// Loads the buffer for the self-test and starts it.
    fn selftest_start(&mut self) -> (r: Result<(), PCDErrorCode>)
        ensures
            final(self).extends(old(self)),
            is_selftest_run(final(self).journal_since(old(self)), 0, 0),
            stops_at_fault(final(self).journal_since(old(self))),
            r is Ok <==> fault_free(final(self).journal_since(old(self)))
                && final(self).journal_since(old(self)).len() == 6,
            r is Err ==> r == Err::<(), PCDErrorCode>(PCDErrorCode::Transport) && !fault_free(
                final(self).journal_since(old(self)),
            ),
    {
        let zeros = [0u8; 25];
        assert(zeros@.take(25) =~= Seq::new(25, |i: int| 0u8));
        let mut step = self.write_reg(PCDRegister::FIFOLevelReg, 0x80);
        if step.is_ok() {
            step = self.write_reg_buff(PCDRegister::FIFODataReg, 25, &zeros);
        }
        if step.is_ok() {
            step = self.write_reg(PCDRegister::CommandReg, PCDCommand::Mem);
        }
        if step.is_ok() {
            step = self.write_reg(PCDRegister::AutoTestReg, 0x09);
        }
        if step.is_ok() {
            step = self.write_reg(PCDRegister::FIFODataReg, 0x00);
        }
        if step.is_ok() {
            step = self.write_reg(PCDRegister::CommandReg, PCDCommand::CalcCRC);
        }
        proof {
            let d = self.journal_since(old(self));
            if step is Err {
                assert(!d[d.len() - 1].ok());
            }
        }
        step
    }

    /// Polls the buffer level until the self-test has filled the buffer.
    fn selftest_wait(&mut self) -> (r: Result<(), PCDErrorCode>)
        ensures
            final(self).extends(old(self)),
            1 <= final(self).journal_since(old(self)).len() <= 255,
            forall|i: int|
                0 <= i < final(self).journal_since(old(self)).len() ==> asks_read(
                    #[trigger] final(self).journal_since(old(self))[i],
                    PCDRegister::FIFOLevelReg,
                    1,
                ),
            forall|i: int|
                0 <= i < final(self).journal_since(old(self)).len() - 1 ==>
                    (#[trigger] final(self).journal_since(old(self))[i]).ok() && value(
                    final(self).journal_since(old(self))[i],
                ) < 64,
            r is Ok <==> final(self).journal_since(old(self)).last().ok(),
            r is Ok ==> value(final(self).journal_since(old(self)).last()) >= 64
                || final(self).journal_since(old(self)).len() == 255,
            r is Err ==> r == Err::<(), PCDErrorCode>(PCDErrorCode::Transport),
    {
        let ghost n0 = self.journal().len() as int;
        let mut polls: u8 = 0;
        while polls < 255
            invariant
                polls <= 255,
                n0 == old(self).journal().len(),
                self.extends(old(self)),
                self.journal().len() == n0 + polls,
                forall|i: int|
                    0 <= i < polls ==> asks_read(
                        #[trigger] self.journal_since(old(self))[i],
                        PCDRegister::FIFOLevelReg,
                        1,
                    ) && self.journal_since(old(self))[i].ok() && value(
                        self.journal_since(old(self))[i],
                    ) < 64,
            decreases 255 - polls,
        {
            let ghost d0 = self.journal_since(old(self));
            let got = self.read_reg(PCDRegister::FIFOLevelReg);
            proof {
                let d = self.journal_since(old(self));
                assert(forall|i: int| 0 <= i < d0.len() ==> d[i] == d0[i]);
            }
            match got {
                Ok(n) => {
                    if n >= 64 || polls == 254 {
                        return Ok(());
                    }
                },
                Err(e) => {
                    return Err(e);
                },
            }
            polls += 1;
        }
        Ok(())
    }

    /// Stops the self-test and reads its 64 bytes.
    fn selftest_finish(&mut self) -> (r: Result<[u8; 64], PCDErrorCode>)
        ensures
            final(self).extends(old(self)),
            1 <= final(self).journal_since(old(self)).len() <= 3,
            stops_at_fault(final(self).journal_since(old(self))),
            asks_write(
                final(self).journal_since(old(self))[0],
                PCDRegister::CommandReg,
                PCDCommand::Idle,
            ),
            final(self).journal_since(old(self)).len() > 1 ==> asks_read(
                final(self).journal_since(old(self))[1],
                PCDRegister::FIFODataReg,
                64,
            ),
            final(self).journal_since(old(self)).len() > 2 ==> asks_write(
                final(self).journal_since(old(self))[2],
                PCDRegister::AutoTestReg,
                0x00,
            ),
            r is Ok <==> fault_free(final(self).journal_since(old(self)))
                && final(self).journal_since(old(self)).len() == 3,
            r is Ok ==> r->Ok_0@ == final(self).journal_since(old(self))[1]->Read_data,
            r is Err ==> r == Err::<[u8; 64], PCDErrorCode>(PCDErrorCode::Transport) && !fault_free(
                final(self).journal_since(old(self)),
            ),
    {
        let mut res = [0u8; 64];
        let mut step = self.write_reg(PCDRegister::CommandReg, PCDCommand::Idle);
        if step.is_ok() {
            step = self.read_reg_buff(PCDRegister::FIFODataReg, 64, &mut res, 0);
        }
        let ghost s1 = *self;
        if step.is_ok() {
            step = self.write_reg(PCDRegister::AutoTestReg, 0x00);
        }
        proof {
            let d = self.journal_since(old(self));
            if step is Err {
                assert(!d[d.len() - 1].ok());
            } else {
                assert(d[1] == s1.journal().last());
                assert(res@ =~= d[1]->Read_data);
            }
        }
        match step {
            Ok(()) => Ok(res),
            Err(e) => Err(e),
        }
    }

    /// Runs the chip's built-in self-test and returns the 64 bytes that it
    /// leaves in the buffer, then starts the chip up again.
    ///
    /// The bytes are returned as they are: they are not compared with the
    /// values that the chip's version should produce.
    #[verifier::rlimit(30)]
    pub fn pcd_selftest(&mut self) -> (r: Result<[u8; 64], PCDErrorCode>)
        ensures
            final(self).extends(old(self)),
            stops_at_fault(final(self).journal_since(old(self))),
            exists|p: int, k: int| #[trigger]
                is_selftest_call(final(self).journal_since(old(self)), p, k, r),
    {
        let ghost s0 = *self;
        if let Err(e) = self.selftest_start() {
            proof {
                assert(is_selftest_call(self.journal_since(&s0), 0, 0, Err(e)));
            }
            return Err(e);
        }
        let ghost s1 = *self;
        let waited = self.selftest_wait();
        let ghost s2 = *self;
        let ghost p = s2.journal_since(&s1).len() as int;
        proof {
            Self::lemma_since_concat(&s0, &s1, &s2);
            let d = self.journal_since(&s0);
            let w = s2.journal_since(&s1);
            assert(forall|i: int| 0 <= i < 6 ==> d[i] == s1.journal_since(&s0)[i]);
            assert(forall|i: int| 0 <= i < p ==> d[6 + i] == w[i]);
            assert forall|i: int| 6 <= i < 6 + p implies asks_read(
                #[trigger] d[i],
                PCDRegister::FIFOLevelReg,
                1,
            ) by {
                assert(d[i] == w[i - 6]);
            }
            assert forall|i: int| 6 <= i < 6 + p - 1 implies value(#[trigger] d[i]) < 64
                && d[i].ok() by {
                assert(d[i] == w[i - 6]);
            }
            assert(is_selftest_run(d, p, 0));
            assert(stops_at_fault(d));
        }
        if let Err(e) = waited {
            proof {
                let d = self.journal_since(&s0);
                assert(!d[d.len() - 1].ok());
                assert(is_selftest_call(d, p, 0, Err(e)));
            }
            return Err(e);
        }
        let finished = self.selftest_finish();
        let ghost s3 = *self;
        proof {
            Self::lemma_since_concat(&s0, &s2, &s3);
            let d = self.journal_since(&s0);
            let d2 = s2.journal_since(&s0);
            let f = s3.journal_since(&s2);
            assert(forall|i: int| 0 <= i < 6 + p ==> d[i] == d2[i]);
            assert(forall|i: int| 0 <= i < f.len() ==> d[6 + p + i] == f[i]);
            assert(fault_free(d2)) by {
                assert(d2[d2.len() - 1].ok());
            }
            assert(is_selftest_run(d, p, 0));
            assert(stops_at_fault(d));
            if finished is Err {
                assert(!d[d.len() - 1].ok());
            } else {
                assert(fault_free(d));
            }
        }
        let digest = match finished {
            Ok(v) => v,
            Err(e) => {
                proof {
                    assert(is_selftest_call(self.journal_since(&s0), p, 0, Err(e)));
                }
                return Err(e);
            },
        };
        let started = self.pcd_init();
        proof {
            let s4 = *self;
            Self::lemma_since_concat(&s0, &s3, &s4);
            let d = self.journal_since(&s0);
            let d3 = s3.journal_since(&s0);
            let t = s4.journal_since(&s3);
            let k = choose|k: int| #[trigger]
                is_init_run(t, k) && (started is Ok ==> init_complete(t, k));
            assert(d.skip(9 + p) =~= t);
            assert(forall|i: int| 0 <= i < 9 + p ==> d[i] == d3[i]);
            assert(t.len() >= 1);
            assert(is_selftest_run(d, p, k));
            assert(stops_at_fault(d)) by {
                assert forall|i: int| 0 <= i < d.len() - 1 implies (#[trigger] d[i]).ok() by {
                    if i >= 9 + p {
                        assert(d[i] == t[i - (9 + p)]);
                    }
                }
            }
            assert(fault_free(d) <==> fault_free(t)) by {
                if fault_free(d) {
                    assert forall|j: int| 0 <= j < t.len() implies (#[trigger] t[j]).ok() by {
                        assert(t[j] == d[9 + p + j]);
                    }
                }
                if fault_free(t) {
                    assert forall|j: int| 0 <= j < d.len() implies (#[trigger] d[j]).ok() by {
                        if j >= 9 + p {
                            assert(d[j] == t[j - (9 + p)]);
                        }
                    }
                }
            }
            let r = match started {
                Ok(()) => Ok::<[u8; 64], PCDErrorCode>(digest),
                Err(e) => Err::<[u8; 64], PCDErrorCode>(e),
            };
            assert(d[7 + p] == d3[7 + p]);
            assert(is_selftest_call(d, p, k, r));
        }
        match started {
            Ok(()) => Ok(digest),
            Err(e) => Err(e),
        }
    }

    /// Computes the checksum of `data[..length]` on the chip's coprocessor
    /// and returns its two bytes, low byte first.
    #[verifier::rlimit(30)]
    pub fn pcd_calc_crc(&mut self, data: &[u8], length: u8) -> (r: Result<[u8; 2], PCDErrorCode>)
        requires
            length <= data@.len(),
        ensures
            final(self).extends(old(self)),
            stops_at_fault(final(self).journal_since(old(self))),
            final(self).journal_since(old(self)).len() > 0,
            r == Err::<[u8; 2], PCDErrorCode>(PCDErrorCode::Transport) <==> !fault_free(
                final(self).journal_since(old(self)),
            ),
            r is Err ==> r->Err_0 == PCDErrorCode::Transport || r->Err_0 == PCDErrorCode::Timeout,
            exists|p: int|
                is_crc_call(final(self).journal_since(old(self)), data@.take(length as int), p, r),
    {
        let ghost n0 = self.journal().len() as int;
        let ghost payload = data@.take(length as int);
        proof {
            reveal(is_crc_call);
        }
        let mut step = self.write_reg(PCDRegister::CommandReg, PCDCommand::Idle);
        if step.is_ok() {
            step = self.write_reg(PCDRegister::DivIrqReg, 0x04);
        }
        if step.is_ok() {
            step = self.write_reg(PCDRegister::FIFOLevelReg, 0x80);
        }
        if step.is_ok() {
            step = self.write_reg_buff(PCDRegister::FIFODataReg, length as usize, data);
        }
        if step.is_ok() {
            step = self.write_reg(PCDRegister::CommandReg, PCDCommand::CalcCRC);
        }
        if step.is_err() {
            proof {
                let d = self.journal_since(old(self));
                assert(!d[d.len() - 1].ok());
                assert(is_crc_call(d, payload, 0, Err(PCDErrorCode::Transport)));
            }
            return Err(PCDErrorCode::Transport);
        }
        let mut polls: u16 = 0;
        while polls < 5000
            invariant
                polls <= 5000,
                n0 == old(self).journal().len(),
                payload == data@.take(length as int),
                self.extends(old(self)),
                self.journal().len() == n0 + 5 + polls,
                fault_free(self.journal_since(old(self))),
                polls == 0 ==> is_crc_run(self.journal_since(old(self)), payload, 0),
                polls > 0 ==> is_crc_run(self.journal_since(old(self)), payload, polls as int),
                polls > 0 ==> value(self.journal()[n0 + 5 + polls - 1]) & 0x04 == 0,
            decreases 5000 - polls,
        {
            let ghost d0 = self.journal_since(old(self));
            let ghost p = polls as int + 1;
            proof {
                reveal(is_crc_call);
            }
            match self.read_reg(PCDRegister::DivIrqReg) {
                Ok(n) => {
                    proof {
                        let d = self.journal_since(old(self));
                        assert(forall|i: int| 0 <= i < d0.len() ==> d[i] == d0[i]);
                        assert(is_crc_run(d, payload, p));
                    }
                    if n & 0x04 != 0 {
                        let ghost d1 = self.journal_since(old(self));
                        let mut fin = self.write_reg(PCDRegister::CommandReg, PCDCommand::Idle);
                        let mut lo: u8 = 0;
                        let mut hi: u8 = 0;
                        if fin.is_ok() {
                            match self.read_reg(PCDRegister::CRCResultRegL) {
                                Ok(v) => {
                                    lo = v;
                                },
                                Err(e) => {
                                    fin = Err(e);
                                },
                            }
                        }
                        if fin.is_ok() {
                            match self.read_reg(PCDRegister::CRCResultRegH) {
                                Ok(v) => {
                                    hi = v;
                                },
                                Err(e) => {
                                    fin = Err(e);
                                },
                            }
                        }
                        proof {
                            let d = self.journal_since(old(self));
                            assert(forall|i: int| 0 <= i < d1.len() ==> d[i] == d1[i]);
                            assert(is_crc_run(d, payload, p));
                            if fin is Err {
                                assert(!d[d.len() - 1].ok());
                            }
                        }
                        let r = match fin {
                            Ok(()) => Ok([lo, hi]),
                            Err(e) => Err(e),
                        };
                        proof {
                            assert(is_crc_call(self.journal_since(old(self)), payload, p, r));
                        }
                        return r;
                    }
                },
                Err(e) => {
                    proof {
                        let d = self.journal_since(old(self));
                        assert(forall|i: int| 0 <= i < d0.len() ==> d[i] == d0[i]);
                        assert(!d[d.len() - 1].ok());
                        assert(is_crc_run(d, payload, p));
                        assert(is_crc_call(d, payload, p, Err(e)));
                    }
                    return Err(e);
                },
            }
            polls += 1;
        }
        proof {
            let d = self.journal_since(old(self));
            assert(is_crc_call(d, payload, 5000, Err(PCDErrorCode::Timeout)));
        }
        Err(PCDErrorCode::Timeout)
    }

    /// Clears the bits of `mask` in register `reg`: reads it and writes back
    /// what it read without those bits.
    pub fn pcd_clear_register_bit_mask(&mut self, reg: u8, mask: u8) -> (r: Result<
        (),
        PCDErrorCode,
    >)
        ensures
            final(self).extends(old(self)),
            is_update(
                final(self).journal_since(old(self)),
                reg,
                value(final(self).journal_since(old(self))[0]) & !mask,
            ),
            r is Ok <==> fault_free(final(self).journal_since(old(self))),
            r is Err ==> r == Err::<(), PCDErrorCode>(PCDErrorCode::Transport),
    {
        let r = match self.read_reg(reg) {
            Ok(tmp) => self.write_reg(reg, tmp & !mask),
            Err(e) => Err(e),
        };
        r
    }

    /// Sets the bits of `mask` in register `reg`: reads it and writes back
    /// what it read with those bits added.
    pub fn pcd_set_register_bit_mask(&mut self, reg: u8, mask: u8) -> (r: Result<
        (),
        PCDErrorCode,
    >)
        ensures
            final(self).extends(old(self)),
            is_update(
                final(self).journal_since(old(self)),
                reg,
                value(final(self).journal_since(old(self))[0]) | mask,
            ),
            r is Ok <==> fault_free(final(self).journal_since(old(self))),
            r is Err ==> r == Err::<(), PCDErrorCode>(PCDErrorCode::Transport),
    {
        let r = match self.read_reg(reg) {
            Ok(tmp) => self.write_reg(reg, tmp | mask),
            Err(e) => Err(e),
        };
        r
    }

    /// Reads the chip's version register.
    pub fn pcd_get_version(&mut self) -> (r: Result<u8, PCDErrorCode>)
        ensures
            final(self).extends(old(self)),
            final(self).journal_since(old(self)).len() == 1,
            asks_read(final(self).journal_since(old(self))[0], PCDRegister::VersionReg, 1),
            r is Ok <==> final(self).journal_since(old(self))[0].ok(),
            r is Ok ==> r->Ok_0 == value(final(self).journal_since(old(self))[0]),
            r is Err ==> r == Err::<u8, PCDErrorCode>(PCDErrorCode::Transport),
    {
        self.read_reg(PCDRegister::VersionReg)
    }
}

} // verus!
