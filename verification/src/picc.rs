//! Operations on the card in the field: request and wake-up, presence,
//! anti-collision and selection, and halt.

use vstd::prelude::*;
use crate::anticoll::{
    check_atqa_shape, check_sak_shape, collision_position, copy_bytes, frame_plan,
    level_known_bits, mark_collision, sak_incomplete, seal_frame, select_code, spec_atqa_shape_ok,
    spec_sealed, store_level, uses_cascade_tag,
};
use crate::bus::{Bus, RegOp, asks_write, fault_free, stops_at_fault};
use crate::consts::{PCDCommand, PCDErrorCode, PCDRegister, PICCCommand, Uid, UidSize, UidView};
use crate::pcd::{CommandCall, CommandCuts, is_command_call, is_crc_call, no_cuts};
use crate::selection::{
    Level, Round, RoundEnd, SelectEnd, is_level_journal, is_round_journal, is_select_call,
    is_select_journal, is_send_journal, is_settle_journal, lemma_send_journal_extends, level_end,
    level_result, level_start_buffer, reaches_exchange, round_call, round_end, select_end,
    settle_end, spec_frame, spec_merged, spec_window, starts_fresh,
};
use crate::transport::MFRC522;

verus! {

/// What the outcome of the halt exchange means: silence until the timeout is
/// the card's consent; an answer of any kind is a refusal; other failures
/// stay what they are.
pub open spec fn spec_halt_result(sent: Result<bool, PCDErrorCode>) -> Result<(), PCDErrorCode> {
    match sent {
        Ok(_) => Err(PCDErrorCode::Protocol),
        Err(PCDErrorCode::Timeout) => Ok(()),
        Err(e) => Err(e),
    }
}

/// The result of a halt from the outcome of its exchange.
#[verifier::when_used_as_spec(spec_halt_result)]
pub fn halt_result(sent: Result<bool, PCDErrorCode>) -> (r: Result<(), PCDErrorCode>)
    ensures
        r == spec_halt_result(sent),
{
    match sent {
        Ok(_) => Err(PCDErrorCode::Protocol),
        Err(PCDErrorCode::Timeout) => Ok(()),
        Err(e) => Err(e),
    }
}

/// What the exchange inside a request, a presence check or a halt gave back,
/// and where its phases lie in its journal.
pub struct ExchangeRun {
    pub cuts: CommandCuts,
    /// Whether there was a collision, or why the exchange failed.
    pub sent: Result<bool, PCDErrorCode>,
    /// The response buffer after the exchange, the length of the response and
    /// the number of valid bits in its last byte (0 for all).
    pub back: Seq<u8>,
    pub len: u8,
    pub bits: u8,
}

/// What the outcome of a request exchange means: an answer of two full bytes
/// is the card's answer to request; any other answer is refused; a failed
/// exchange stays what it is.
pub open spec fn spec_request_result(sent: Result<bool, PCDErrorCode>, len: u8, bits: u8) -> Result<
    (),
    PCDErrorCode,
> {
    match sent {
        Ok(_) => if spec_atqa_shape_ok(len, bits) {
            Ok(())
        } else {
            Err(PCDErrorCode::InvalidAtqa)
        },
        Err(e) => Err(e),
    }
}

/// The request exchange as a call of the command engine: the one command
/// byte as a short frame of seven bits, no alignment, no checksum.
pub open spec fn request_call(
    cmd: u8,
    capacity: u8,
    back_before: Seq<u8>,
    w: ExchangeRun,
) -> CommandCall {
    CommandCall {
        cmd: PCDCommand::Transceive,
        wait_irq: 0x30,
        data: seq![cmd],
        tx_last_bits: 7,
        rx_align: 0,
        capacity,
        check_crc: false,
        back_before,
        back_after: w.back,
        len_after: w.len,
        bits_after: w.bits,
        result: w.sent,
    }
}

/// `d` is the journal of a request with command byte `cmd` and room for
/// `capacity` bytes, at least 2, that ended with `r`: the collision register
/// is prepared, and unless that failed the command byte is exchanged.
pub open spec fn is_request_call(
    d: Seq<RegOp>,
    cmd: u8,
    capacity: u8,
    back_before: Seq<u8>,
    w: ExchangeRun,
    r: Result<(), PCDErrorCode>,
) -> bool {
    &&& starts_fresh(d)
    &&& if d.len() < 2 || !d[1].ok() {
        &&& d.len() <= 2
        &&& r == Err::<(), PCDErrorCode>(PCDErrorCode::Transport)
        &&& w.back == back_before
        &&& w.len == capacity
    } else {
        &&& is_command_call(d.skip(2), request_call(cmd, capacity, back_before, w), w.cuts)
        &&& r == spec_request_result(w.sent, w.len, w.bits)
    }
}

/// A buffer of `n` zero bytes.
pub open spec fn zeros(n: nat) -> Seq<u8> {
    Seq::new(n, |j: int| 0u8)
}

/// The result of the request behind the result of a presence check.
pub open spec fn presence_request(r: Result<bool, PCDErrorCode>) -> Result<(), PCDErrorCode> {
    match r {
        Ok(_) => Ok(()),
        Err(e) => Err(e),
    }
}

/// `d` is the journal of a presence check that ended with `r`: the transmit
/// and receive speed and the modulation width are reset, and unless that
/// failed a request, type A, with room for two bytes follows.
pub open spec fn is_presence_call(
    d: Seq<RegOp>,
    w: ExchangeRun,
    r: Result<bool, PCDErrorCode>,
) -> bool {
    &&& d.len() >= 1
    &&& asks_write(d[0], PCDRegister::TxModeReg, 0x00)
    &&& (d.len() >= 2 ==> d[0].ok() && asks_write(d[1], PCDRegister::RxModeReg, 0x00))
    &&& (d.len() >= 3 ==> d[1].ok() && asks_write(d[2], PCDRegister::ModWidthReg, 0x26))
    &&& if d.len() <= 3 {
        !d[d.len() - 1].ok() && r == Err::<bool, PCDErrorCode>(PCDErrorCode::Transport)
    } else {
        &&& d[2].ok()
        &&& is_request_call(
            d.skip(3),
            PICCCommand::PICC_CMD_REQA,
            2,
            zeros(2),
            w,
            presence_request(r),
        )
        &&& (r is Ok ==> r == Ok::<bool, PCDErrorCode>(true))
    }
}

/// What the checksum computation and the exchange of a halt gave back.
pub struct HaltRun {
    pub crc_polls: int,
    pub crc: Result<[u8; 2], PCDErrorCode>,
    /// Where the checksum run ends in the journal of the halt.
    pub crc_end: int,
    pub exchange: ExchangeRun,
}

/// The halt exchange as a call of the command engine: the halt command, a
/// zero byte and their checksum as a full frame, with no response wanted.
pub open spec fn halt_call(crc: [u8; 2], w: ExchangeRun) -> CommandCall {
    CommandCall {
        cmd: PCDCommand::Transceive,
        wait_irq: 0x30,
        data: seq![PICCCommand::PICC_CMD_HLTA, 0u8, crc[0], crc[1]],
        tx_last_bits: 0,
        rx_align: 0,
        capacity: 0,
        check_crc: false,
        back_before: zeros(1),
        back_after: w.back,
        len_after: w.len,
        bits_after: w.bits,
        result: w.sent,
    }
}

/// `d` is the journal of a halt that ended with `r`: the checksum of the
/// halt command and a zero byte is computed, and unless that failed the four
/// bytes are exchanged.
pub open spec fn is_halt_call(d: Seq<RegOp>, w: HaltRun, r: Result<(), PCDErrorCode>) -> bool {
    &&& 0 <= w.crc_end <= d.len()
    &&& is_crc_call(d.take(w.crc_end), seq![PICCCommand::PICC_CMD_HLTA, 0u8], w.crc_polls, w.crc)
    &&& match w.crc {
        Err(e) => d.len() == w.crc_end && r == Err::<(), PCDErrorCode>(e),
        Ok(crc) => is_command_call(d.skip(w.crc_end), halt_call(crc, w.exchange), w.exchange.cuts)
            && r == spec_halt_result(w.exchange.sent),
    }
}

/// An identifier of the given length with nothing in it yet.
pub open spec fn fresh_uid(size: UidSize) -> UidView {
    UidView { size: size.spec_to_byte(), sak: 0, bytes: zeros(10) }
}

/// The result of the selection behind the result of `get_card`.
pub open spec fn selection_result(r: Result<Uid, PCDErrorCode>) -> Result<(), PCDErrorCode> {
    match r {
        Ok(_) => Ok(()),
        Err(e) => Err(e),
    }
}

/// Where a round ends in the journal of its level has no bearing on what
/// follows its exchange.
proof fn lemma_settle_end_same(merged: Seq<u8>, known_bits: u8, w1: Round, w2: Round)
    requires
        w2 == (Round { end: w2.end, ..w1 }),
    ensures
        settle_end(merged, known_bits, w2) == settle_end(merged, known_bits, w1),
{
}

/// Where a round ends in the journal of its level has no bearing on the
/// journal of what follows its exchange.
proof fn lemma_settle_record_end(t: Seq<RegOp>, known_bits: u8, w1: Round, w2: Round)
    requires
        is_settle_journal(t, known_bits, w1),
        w2 == (Round { end: w2.end, ..w1 }),
    ensures
        is_settle_journal(t, known_bits, w2),
{
}

/// Where a round ends in the journal of its level has no bearing on its own
/// journal or on its effect, for a round that ended before or with its
/// exchange.
proof fn lemma_round_record_end(
    d: Seq<RegOp>,
    buffer: Seq<u8>,
    known_bits: u8,
    w1: Round,
    w2: Round,
)
    requires
        is_send_journal(d, buffer, known_bits, w1),
        reaches_exchange(known_bits, w1) ==> w1.answered_at == d.len() && w1.sent is Err,
        w2 == (Round { end: w2.end, ..w1 }),
    ensures
        is_round_journal(d, buffer, known_bits, w2),
        round_end(buffer, known_bits, w2) == round_end(buffer, known_bits, w1),
{
    assert(round_call(buffer, known_bits, w2) == round_call(buffer, known_bits, w1));
    if reaches_exchange(known_bits, w1) {
        assert(d.skip(w1.answered_at).len() == 0);
    }
}

/// How one round leaves its cascade level when it does not fail.
pub enum RoundStep {
    /// Another round is due, with this many known bits.
    Next(u8),
    /// The card has acknowledged the select frame with this byte.
    Done(u8),
}

/// The result of a round and the buffer after it, as a `RoundEnd`.
pub open spec fn step_end(r: Result<RoundStep, PCDErrorCode>, buffer: Seq<u8>) -> RoundEnd {
    match r {
        Ok(RoundStep::Next(k)) => RoundEnd::Next { buffer, known_bits: k },
        Ok(RoundStep::Done(sak)) => RoundEnd::Done { buffer, sak },
        Err(e) => RoundEnd::Failed { error: e },
    }
}

impl<B: Bus> MFRC522<B> {
    /// Sends a request (`PICC_CMD_REQA`) or a wake-up (`PICC_CMD_WUPA`) as a
    /// short frame of seven bits and receives the answer into `buffer_atqa`.
    ///
    /// `*buffer_size` is the room on entry, at least 2, and the length of the
    /// answer on return. The call succeeds only for an answer of two full
    /// bytes. With room for less than two bytes nothing is sent.
    pub fn picc_reqa_or_wupa(
        &mut self,
        cmd: u8,
        buffer_atqa: &mut [u8],
        buffer_size: &mut u8,
    ) -> (r:
        Result<(), PCDErrorCode>)
        requires
            *old(buffer_size) <= old(buffer_atqa)@.len(),
        ensures
            final(self).extends(old(self)),
            final(buffer_atqa)@.len() == old(buffer_atqa)@.len(),
            *old(buffer_size) < 2 ==> r == Err::<(), PCDErrorCode>(PCDErrorCode::Overflow)
                && final(self).wire() == old(self).wire()
                    && final(self).journal() == old(self).journal()
                        && final(buffer_atqa)@ == old(buffer_atqa)@ && *final(buffer_size)
                == *old(buffer_size),
            *old(buffer_size) >= 2 ==> stops_at_fault(final(self).journal_since(old(self))) && (r
                == Err::<(), PCDErrorCode>(PCDErrorCode::Transport) <==> !fault_free(
                final(self).journal_since(old(self)),
            )),
            *old(buffer_size) >= 2 ==> exists|w: ExchangeRun| #[trigger]
                is_request_call(
                    final(self).journal_since(old(self)),
                    cmd,
                    *old(buffer_size),
                    old(buffer_atqa)@,
                    w,
                    r,
                ) && w.back == final(buffer_atqa)@ && w.len == *final(buffer_size),
    {
        if *buffer_size < 2 {
            return Err(PCDErrorCode::Overflow);
        }
        let ghost s0 = *self;
        let ghost back0 = buffer_atqa@;
        let ghost cuts0 = no_cuts();
        if let Err(e) = self.pcd_clear_register_bit_mask(PCDRegister::CollReg, 0x80) {
            proof {
                let d = self.journal_since(&s0);
                assert(!d[d.len() - 1].ok());
                let w = ExchangeRun {
                    cuts: cuts0,
                    sent: Err(e),
                    back: back0,
                    len: *buffer_size,
                    bits: 0,
                };
                assert(is_request_call(d, cmd, *old(buffer_size), back0, w, Err(e)));
            }
            return Err(e);
        }
        let ghost s1 = *self;
        let mut valid_bits: u8 = 7;
        let frame = [cmd];
        let sent = self.pcd_transceive_data(
            &frame,
            1,
            buffer_atqa,
            buffer_size,
            &mut valid_bits,
            0,
            false,
        );
        let r = match sent {
            Ok(_) => check_atqa_shape(*buffer_size, valid_bits),
            Err(e) => Err(e),
        };
        proof {
            Self::lemma_run_on(&s0, &s1, self);
            let d = self.journal_since(&s0);
            let a = s1.journal_since(&s0);
            let x = self.journal_since(&s1);
            assert(d[0] == a[0]);
            assert(d[1] == a[1]);
            assert(d.skip(2) =~= x);
            let w0 = ExchangeRun {
                cuts: cuts0,
                sent,
                back: buffer_atqa@,
                len: *buffer_size,
                bits: valid_bits,
            };
            let call = request_call(cmd, *old(buffer_size), back0, w0);
            assert(call.data =~= frame@.take(1));
            let k = choose|k: CommandCuts| #[trigger] is_command_call(x, call, k);
            let w = ExchangeRun { cuts: k, ..w0 };
            assert(request_call(cmd, *old(buffer_size), back0, w) == call);
            assert(r is Ok ==> r->Ok_0 == ());
            assert(is_request_call(d, cmd, *old(buffer_size), back0, w, r));
        }
        r
    }

    /// Sends a request, type A, and receives the answer into `buffer_atqa`.
    pub fn picc_request_a(&mut self, buffer_atqa: &mut [u8], buffer_size: &mut u8) -> (r: Result<
        (),
        PCDErrorCode,
    >)
        requires
            *old(buffer_size) <= old(buffer_atqa)@.len(),
        ensures
            final(self).extends(old(self)),
            final(buffer_atqa)@.len() == old(buffer_atqa)@.len(),
            *old(buffer_size) < 2 ==> r == Err::<(), PCDErrorCode>(PCDErrorCode::Overflow)
                && final(self).wire() == old(self).wire()
                    && final(self).journal() == old(self).journal()
                        && final(buffer_atqa)@ == old(buffer_atqa)@ && *final(buffer_size)
                == *old(buffer_size),
            *old(buffer_size) >= 2 ==> stops_at_fault(final(self).journal_since(old(self))) && (r
                == Err::<(), PCDErrorCode>(PCDErrorCode::Transport) <==> !fault_free(
                final(self).journal_since(old(self)),
            )),
            *old(buffer_size) >= 2 ==> exists|w: ExchangeRun| #[trigger]
                is_request_call(
                    final(self).journal_since(old(self)),
                    PICCCommand::PICC_CMD_REQA,
                    *old(buffer_size),
                    old(buffer_atqa)@,
                    w,
                    r,
                ) && w.back == final(buffer_atqa)@ && w.len == *final(buffer_size),
    {
        self.picc_reqa_or_wupa(PICCCommand::PICC_CMD_REQA, buffer_atqa, buffer_size)
    }

    /// Looks for a card in the field: resets the transmit and receive speed
    /// and the modulation width and sends a request. Returns `true` for an
    /// answer of two full bytes and an error for anything else; it never
    /// returns `false`.
    pub fn picc_is_new_card_present(&mut self) -> (r: Result<bool, PCDErrorCode>)
        ensures
            final(self).extends(old(self)),
            stops_at_fault(final(self).journal_since(old(self))),
            r == Err::<bool, PCDErrorCode>(PCDErrorCode::Transport) <==> !fault_free(
                final(self).journal_since(old(self)),
            ),
            exists|w: ExchangeRun| #[trigger]
                is_presence_call(final(self).journal_since(old(self)), w, r),
    {
        let mut buffer_atqa = [0u8; 2];
        let mut buffer_size: u8 = 2;
        let ghost s0 = *self;
        let ghost cuts0 = no_cuts();
        let mut step = self.write_reg(PCDRegister::TxModeReg, 0x00);
        if step.is_ok() {
            step = self.write_reg(PCDRegister::RxModeReg, 0x00);
        }
        if step.is_ok() {
            step = self.write_reg(PCDRegister::ModWidthReg, 0x26);
        }
        if let Err(e) = step {
            proof {
                let d = self.journal_since(&s0);
                assert(!d[d.len() - 1].ok());
                let w = ExchangeRun {
                    cuts: cuts0,
                    sent: Err(e),
                    back: Seq::empty(),
                    len: 0,
                    bits: 0,
                };
                assert(is_presence_call(d, w, Err(e)));
            }
            return Err(e);
        }
        let ghost s1 = *self;
        assert(buffer_atqa@ =~= zeros(2));
        let asked = self.picc_request_a(&mut buffer_atqa, &mut buffer_size);
        let r = match asked {
            Ok(()) => Ok(true),
            Err(e) => Err(e),
        };
        proof {
            Self::lemma_run_on(&s0, &s1, self);
            let d = self.journal_since(&s0);
            let a = s1.journal_since(&s0);
            let x = self.journal_since(&s1);
            assert(d[0] == a[0] && d[1] == a[1] && d[2] == a[2]);
            assert(d.skip(3) =~= x);
            let w = choose|w: ExchangeRun| #[trigger]
                is_request_call(
                    x,
                    PICCCommand::PICC_CMD_REQA,
                    2,
                    zeros(2),
                    w,
                    asked,
                );
            assert(asked is Ok ==> asked->Ok_0 == ());
            assert(presence_request(r) == asked);
            assert(x.len() > 0);
            assert(is_presence_call(d, w, r));
        }
        r
    }

    /// The sending part of a round: completes the frame in the buffer, sends
    /// it and lays the answer into the buffer. Returns whether there was a
    /// collision, the response window, its length and the number of valid
    /// bits in its last byte.
    #[verifier::rlimit(30)]
    fn round_send(&mut self, buffer: &mut [u8], known: u8) -> (out: (
        Result<(bool, [u8; 9], u8, u8), PCDErrorCode>,
        Ghost<Round>,
    ))
        requires
            old(buffer)@.len() == 9,
        ensures
            final(self).extends(old(self)),
            final(buffer)@.len() == 9,
            stops_at_fault(final(self).journal_since(old(self))),
            final(self).journal_since(old(self)).len() > 0,
            out.0 == Err::<(bool, [u8; 9], u8, u8), PCDErrorCode>(PCDErrorCode::Transport)
                <==> !fault_free(final(self).journal_since(old(self))),
            is_send_journal(final(self).journal_since(old(self)), old(buffer)@, known, out.1@),
            reaches_exchange(known, out.1@) ==> out.1@.answered_at == final(self).journal_since(
                old(self),
            ).len(),
            match out.0 {
                Ok((collision, response, len, bits)) => {
                    let w = out.1@;
                    &&& reaches_exchange(known, w)
                    &&& w.sent == Ok::<bool, PCDErrorCode>(collision)
                    &&& w.back == response@
                    &&& w.len == len
                    &&& w.bits == bits
                    &&& len <= frame_plan(known).capacity
                    &&& bits <= 7
                    &&& final(buffer)@ == spec_merged(
                        spec_frame(old(buffer)@, known, w),
                        frame_plan(known),
                        w.back,
                        w.len,
                    )
                },
                Err(e) => round_end(old(buffer)@, known, out.1@) == (RoundEnd::Failed { error: e })
                    && (reaches_exchange(known, out.1@) ==> out.1@.sent is Err),
            },
    {
        let ghost s0 = *self;
        let ghost buf0 = buffer@;
        let ghost none2 = Err::<[u8; 2], PCDErrorCode>(PCDErrorCode::Transport);
        let ghost none1 = Err::<u8, PCDErrorCode>(PCDErrorCode::Transport);
        let ghost cuts0 = no_cuts();
        let ghost mut w = Round {
            frame_crc: none2,
            framed: false,
            sent: Err(PCDErrorCode::Transport),
            back: Seq::empty(),
            len: 0,
            bits: 0,
            coll: none1,
            sak_crc: none2,
            frame_crc_polls: 0,
            sealed_at: 0,
            cuts: cuts0,
            answered_at: 0,
            sak_crc_polls: 0,
            end: 0,
        };
        let plan = frame_plan(known);
        seal_frame(buffer, known);
        if known >= 32 {
            let sum = self.pcd_calc_crc(buffer, 7);
            proof {
                let d = self.journal_since(&s0);
                let payload = spec_sealed(buf0, known).take(7);
                assert(buffer@.take(7) =~= payload);
                let p = choose|p: int| is_crc_call(d, payload, p, sum);
                w.frame_crc = sum;
                w.frame_crc_polls = p;
                w.sealed_at = d.len() as int;
                assert(d.take(d.len() as int) =~= d);
            }
            match sum {
                Ok(crc) => {
                    buffer[7] = crc[0];
                    buffer[8] = crc[1];
                },
                Err(e) => {
                    return (Err(e), Ghost(w));
                },
            }
        }
        let ghost s1 = *self;
        let ghost a = s1.journal_since(&s0).len() as int;
        let ghost frame = buffer@;
        assert(frame =~= spec_frame(buf0, known, w));
        let rx_align: u8 = plan.tx_last_bits;
        assert((rx_align << 4) <= 0x70) by (bit_vector)
            requires
                rx_align <= 7,
        ;
        let framed = self.write_reg(
            PCDRegister::BitFramingReg,
            (rx_align << 4) + plan.tx_last_bits,
        );
        let ghost s2 = *self;
        proof {
            Self::lemma_run_on(&s0, &s1, &s2);
            let d = self.journal_since(&s0);
            w.framed = framed is Ok;
            assert(d.take(a) =~= s1.journal_since(&s0));
            assert(d[a] == s2.journal_since(&s1)[0]);
        }
        if let Err(e) = framed {
            return (Err(e), Ghost(w));
        }
        let mut response = [0u8; 9];
        copy_bytes(&mut response, 0, buffer, plan.index as usize, plan.capacity as usize);
        assert(response@ =~= spec_window(frame, plan));
        let mut response_len: u8 = plan.capacity;
        let mut valid_bits: u8 = plan.tx_last_bits;
        let sent = self.pcd_transceive_data(
            buffer,
            plan.send_len,
            &mut response,
            &mut response_len,
            &mut valid_bits,
            rx_align,
            false,
        );
        let ghost s3 = *self;
        let ghost b = s3.journal_since(&s0).len() as int;
        proof {
            Self::lemma_run_on(&s0, &s2, &s3);
            let d = self.journal_since(&s0);
            let x = s3.journal_since(&s2);
            w.sent = sent;
            w.back = response@;
            w.len = response_len;
            w.bits = valid_bits;
            w.answered_at = b;
            let call = round_call(buf0, known, w);
            assert(call.data =~= buffer@.take(plan.send_len as int));
            let k = choose|k: CommandCuts| #[trigger] is_command_call(x, call, k);
            w.cuts = k;
            assert(round_call(buf0, known, w) == call);
            assert(d.take(a) =~= s1.journal_since(&s0));
            assert(d[a] == s2.journal_since(&s1)[0]);
            assert(d.subrange(a + 1, b) =~= x);
        }
        let collision = match sent {
            Ok(c) => c,
            Err(e) => {
                return (Err(e), Ghost(w));
            },
        };
        copy_bytes(buffer, plan.index as usize, &response, 0, response_len as usize);
        assert(buffer@ =~= spec_merged(frame, plan, response@, response_len));
        (Ok((collision, response, response_len, valid_bits)), Ghost(w))
    }

    /// What follows the exchange of a round: after a collision, the position
    /// is read and noted in the buffer; after a collision-free answer to the
    /// full select frame, the acknowledge is checked.
    fn round_settle(
        &mut self,
        buffer: &mut [u8],
        known: u8,
        collision: bool,
        response: &[u8; 9],
        len: u8,
        bits: u8,
        Ghost(w0): Ghost<Round>,
    ) -> (out: (Result<RoundStep, PCDErrorCode>, Ghost<Round>))
        requires
            old(buffer)@.len() == 9,
            w0.sent == Ok::<bool, PCDErrorCode>(collision),
            w0.back == response@,
            w0.len == len,
            w0.bits == bits,
        ensures
            final(self).extends(old(self)),
            final(buffer)@.len() == 9,
            stops_at_fault(final(self).journal_since(old(self))),
            out.0 == Err::<RoundStep, PCDErrorCode>(PCDErrorCode::Transport) <==> !fault_free(
                final(self).journal_since(old(self)),
            ),
            is_settle_journal(final(self).journal_since(old(self)), known, out.1@),
            out.1@ == (Round {
                coll: out.1@.coll,
                sak_crc: out.1@.sak_crc,
                sak_crc_polls: out.1@.sak_crc_polls,
                ..w0
            }),
            settle_end(old(buffer)@, known, out.1@) == step_end(out.0, final(buffer)@),
            out.0 is Ok && out.0->Ok_0 is Next ==> known < out.0->Ok_0->Next_0 <= 32,
    {
        let ghost mut w = w0;
        if collision {
            let looked = self.read_reg(PCDRegister::CollReg);
            proof {
                w.coll = looked;
            }
            let coll = match looked {
                Ok(v) => v,
                Err(e) => {
                    proof {
                        let d = self.journal_since(old(self));
                        assert(!d[0].ok());
                    }
                    return (Err(e), Ghost(w));
                },
            };
            let pos = match collision_position(coll) {
                Ok(p) => p,
                Err(e) => {
                    return (Err(e), Ghost(w));
                },
            };
            match mark_collision(buffer, known, pos) {
                Ok(k) => (Ok(RoundStep::Next(k)), Ghost(w)),
                Err(e) => (Err(e), Ghost(w)),
            }
        } else if known >= 32 {
            if let Err(e) = check_sak_shape(len, bits) {
                return (Err(e), Ghost(w));
            }
            let sum = self.pcd_calc_crc(response, 1);
            proof {
                let t = self.journal_since(old(self));
                let payload = response@.take(1);
                let p = choose|p: int| is_crc_call(t, payload, p, sum);
                w.sak_crc = sum;
                w.sak_crc_polls = p;
            }
            match sum {
                Ok(crc) => {
                    if crc[0] != response[1] || crc[1] != response[2] {
                        (Err(PCDErrorCode::CrcMismatch), Ghost(w))
                    } else {
                        (Ok(RoundStep::Done(response[0])), Ghost(w))
                    }
                },
                Err(e) => (Err(e), Ghost(w)),
            }
        } else {
            (Ok(RoundStep::Next(32)), Ghost(w))
        }
    }

    /// Runs one round of a cascade level on the working buffer: sends what
    /// is known, lays the answer into the buffer and takes note of a
    /// collision, or checks the acknowledge of the full select frame.
    fn select_round(&mut self, buffer: &mut [u8], known: u8, Ghost(start): Ghost<int>) -> (out: (
        Result<RoundStep, PCDErrorCode>,
        Ghost<Round>,
    ))
        requires
            old(buffer)@.len() == 9,
        ensures
            final(self).extends(old(self)),
            final(buffer)@.len() == 9,
            stops_at_fault(final(self).journal_since(old(self))),
            final(self).journal_since(old(self)).len() > 0,
            out.0 == Err::<RoundStep, PCDErrorCode>(PCDErrorCode::Transport) <==> !fault_free(
                final(self).journal_since(old(self)),
            ),
            is_round_journal(final(self).journal_since(old(self)), old(buffer)@, known, out.1@),
            out.1@.end == start + final(self).journal_since(old(self)).len(),
            round_end(old(buffer)@, known, out.1@) == step_end(out.0, final(buffer)@),
            out.0 is Ok && out.0->Ok_0 is Next ==> known < out.0->Ok_0->Next_0 <= 32,
    {
        let ghost s0 = *self;
        let ghost buf0 = buffer@;
        let (sent, Ghost(w1)) = self.round_send(buffer, known);
        let ghost s1 = *self;
        let ghost d1 = s1.journal_since(&s0);
        let (collision, response, len, bits) = match sent {
            Ok(x) => x,
            Err(e) => {
                let ghost w = Round { end: start + d1.len(), ..w1 };
                proof {
                    lemma_round_record_end(d1, buf0, known, w1, w);
                    assert(d1.skip(d1.len() as int).len() == 0);
                }
                return (Err(e), Ghost(w));
            },
        };
        let ghost merged = buffer@;
        let (step, Ghost(w2)) = self.round_settle(
            buffer,
            known,
            collision,
            &response,
            len,
            bits,
            Ghost(w1),
        );
        let ghost w = Round { end: start + self.journal_since(&s0).len(), ..w2 };
        proof {
            Self::lemma_run_on(&s0, &s1, self);
            let d = self.journal_since(&s0);
            let t = self.journal_since(&s1);
            assert(forall|i: int| 0 <= i < d1.len() ==> d[i] == d1[i]);
            lemma_send_journal_extends(d1, d, buf0, known, w1, w);
            assert(d.skip(w.answered_at) =~= t);
            lemma_settle_record_end(t, known, w2, w);
            lemma_settle_end_same(merged, known, w2, w);
        }
        (step, Ghost(w))
    }

    /// Runs the rounds of one cascade level on the working buffer, starting
    /// with `known_bits` known bits, until the card has acknowledged the full
    /// select frame. Returns the acknowledge byte.
    fn select_level(&mut self, buffer: &mut [u8], known_bits: u8) -> (out: (
        Result<u8, PCDErrorCode>,
        Ghost<Seq<Round>>,
    ))
        requires
            old(buffer)@.len() == 9,
        ensures
            final(self).extends(old(self)),
            final(buffer)@.len() == 9,
            stops_at_fault(final(self).journal_since(old(self))),
            out.0 == Err::<u8, PCDErrorCode>(PCDErrorCode::Transport) <==> !fault_free(
                final(self).journal_since(old(self)),
            ),
            out.1@.len() >= 1,
            is_level_journal(
                final(self).journal_since(old(self)),
                old(buffer)@,
                known_bits,
                out.1@,
            ),
            level_end(old(buffer)@, known_bits, out.1@) == (match out.0 {
                Ok(sak) => RoundEnd::Done { buffer: final(buffer)@, sak },
                Err(e) => RoundEnd::Failed { error: e },
            }),
    {
        let ghost s0 = *self;
        let ghost buf0 = buffer@;
        let ghost mut rounds: Seq<Round> = Seq::empty();
        let mut known: u8 = known_bits;
        loop
            invariant
                buffer@.len() == 9,
                s0 == *old(self),
                buf0 == old(buffer)@,
                self.extends(&s0),
                fault_free(self.journal_since(&s0)),
                is_level_journal(self.journal_since(&s0), buf0, known_bits, rounds),
                level_end(buf0, known_bits, rounds) == (RoundEnd::Next {
                    buffer: buffer@,
                    known_bits: known,
                }),
                rounds.len() > 0 ==> rounds.last().end == self.journal_since(&s0).len(),
            decreases (if known < 32 { 32 - known } else { 0 }),
        {
            let ghost pre = *self;
            let ghost n = self.journal_since(&s0).len() as int;
            let ghost buf = buffer@;
            let (step, Ghost(w)) = self.select_round(buffer, known, Ghost(n));
            proof {
                Self::lemma_run_on(&s0, &pre, self);
                let d = self.journal_since(&s0);
                let after = rounds.push(w);
                assert(after.drop_last() =~= rounds);
                assert(after.last() == w);
                assert(d.take(n) =~= pre.journal_since(&s0));
                assert(d.skip(n) =~= self.journal_since(&pre));
                assert(is_level_journal(d, buf0, known_bits, after));
                assert(level_end(buf0, known_bits, after) == round_end(buf, known, w));
                rounds = after;
            }
            match step {
                Ok(RoundStep::Next(k)) => {
                    known = k;
                },
                Ok(RoundStep::Done(sak)) => {
                    return (Ok(sak), Ghost(rounds));
                },
                Err(e) => {
                    return (Err(e), Ghost(rounds));
                },
            }
        }
    }

    /// Selects one card in the field and assembles its identifier in `uid`.
    ///
    /// `valid_bits` says how many bits of the identifier the caller claims to
    /// know, at most 80; the known bits themselves are not taken from `uid`.
    /// The procedure goes through the cascade levels from the first. At each
    /// level it sends what is known, lets the card send the rest, resolves
    /// collisions bit by bit, and ends with the full select frame, which the
    /// card acknowledges. The bytes of the level are then stored in `uid`.
    /// An acknowledge with the cascade bit leads to the next level; one
    /// without it ends the selection, and `uid` gets the acknowledge byte
    /// and the length that the level implies.
    pub fn picc_select(&mut self, uid: &mut Uid, valid_bits: u8) -> (r: Result<(), PCDErrorCode>)
        ensures
            final(self).extends(old(self)),
            valid_bits > 80 ==> r == Err::<(), PCDErrorCode>(PCDErrorCode::BitsExceeded)
                && final(self).wire() == old(self).wire()
                    && final(self).journal() == old(self).journal()
                && *final(uid) == *old(uid),
            valid_bits <= 80 ==> stops_at_fault(final(self).journal_since(old(self))) && (r
                == Err::<(), PCDErrorCode>(PCDErrorCode::Transport) <==> !fault_free(
                final(self).journal_since(old(self)),
            )),
            valid_bits <= 80 ==> exists|levels: Seq<Level>| #[trigger]
                is_select_call(
                    final(self).journal_since(old(self)),
                    old(uid)@,
                    valid_bits,
                    levels,
                    final(uid)@,
                    r,
                ),
    {
        if valid_bits > 80 {
            return Err(PCDErrorCode::BitsExceeded);
        }
        let ghost s0 = *self;
        let ghost uid0 = *uid;
        let ghost mut levels: Seq<Level> = Seq::empty();
        if let Err(e) = self.pcd_clear_register_bit_mask(PCDRegister::CollReg, 0x80) {
            proof {
                let d = self.journal_since(&s0);
                assert(!d[d.len() - 1].ok());
                assert(is_select_call(d, uid0@, valid_bits, levels, uid@, Err(e)));
            }
            return Err(e);
        }
        let ghost s1 = *self;
        let mut cascade_level: u8 = 1;
        loop
            invariant
                1 <= cascade_level <= 3,
                valid_bits <= 80,
                s0 == *old(self),
                uid0 == *old(uid),
                uid.size == uid0.size,
                uid.sak == uid0.sak,
                s1.extends(&s0),
                self.extends(&s1),
                s1.journal_since(&s0).len() == 2,
                fault_free(s1.journal_since(&s0)),
                starts_fresh(s1.journal_since(&s0)),
                fault_free(self.journal_since(&s1)),
                is_select_journal(
                    self.journal_since(&s1),
                    uid0.uid_bytes@,
                    uid0.size,
                    valid_bits,
                    levels,
                ),
                select_end(uid0.uid_bytes@, uid0.size, valid_bits, levels) == (SelectEnd::Next {
                    uid_bytes: uid.uid_bytes@,
                    level: cascade_level,
                }),
                levels.len() > 0 ==> levels.last().end == self.journal_since(&s1).len(),
            decreases 4 - cascade_level,
        {
            let code = match select_code(cascade_level) {
                Some(c) => c,
                None => {
                    return Err(PCDErrorCode::TooManyCascadeLevels);
                },
            };
            let cascade = uses_cascade_tag(cascade_level, valid_bits, uid.size);
            let known = level_known_bits(valid_bits, cascade_level, cascade);
            let mut buffer = [0u8; 9];
            buffer[0] = code;
            if cascade {
                buffer[2] = PICCCommand::PICC_CMD_CT;
            }
            assert(buffer@ =~= level_start_buffer(cascade_level, valid_bits, uid0.size));
            let ghost pre = *self;
            let ghost n = self.journal_since(&s1).len() as int;
            let ghost bytes = uid.uid_bytes@;
            let (done, Ghost(rounds)) = self.select_level(&mut buffer, known);
            proof {
                Self::lemma_run_on(&s1, &pre, self);
                Self::lemma_run_on(&s0, &s1, self);
                let d = self.journal_since(&s1);
                let after = levels.push(Level { rounds, end: d.len() as int });
                assert(after.drop_last() =~= levels);
                assert(d.take(n) =~= pre.journal_since(&s1));
                assert(d.skip(n) =~= self.journal_since(&pre));
                assert(is_select_journal(d, uid0.uid_bytes@, uid0.size, valid_bits, after));
                assert(select_end(uid0.uid_bytes@, uid0.size, valid_bits, after) == level_result(
                    bytes,
                    uid0.size,
                    valid_bits,
                    cascade_level,
                    rounds,
                ));
                levels = after;
                let whole = self.journal_since(&s0);
                assert(whole.skip(2) =~= d);
                assert(whole[0] == s1.journal_since(&s0)[0]);
                assert(whole[1] == s1.journal_since(&s0)[1]);
            }
            let sak = match done {
                Ok(v) => v,
                Err(e) => {
                    proof {
                        assert(is_select_call(
                            self.journal_since(&s0),
                            uid0@,
                            valid_bits,
                            levels,
                            uid@,
                            Err(e),
                        ));
                    }
                    return Err(e);
                },
            };
            store_level(uid, &buffer, cascade_level);
            if !sak_incomplete(sak) {
                uid.sak = sak;
                uid.size = 3 * cascade_level + 1;
                proof {
                    assert(is_select_call(
                        self.journal_since(&s0),
                        uid0@,
                        valid_bits,
                        levels,
                        uid@,
                        Ok(()),
                    ));
                }
                return Ok(());
            }
            if cascade_level >= 3 {
                proof {
                    assert(is_select_call(
                        self.journal_since(&s0),
                        uid0@,
                        valid_bits,
                        levels,
                        uid@,
                        Err(PCDErrorCode::TooManyCascadeLevels),
                    ));
                }
                return Err(PCDErrorCode::TooManyCascadeLevels);
            }
            cascade_level = cascade_level + 1;
        }
    }

    /// Tells the selected card to halt: sends the halt command with its
    /// checksum and expects silence.
    ///
    /// A card that accepts the command does not answer, so the call succeeds
    /// exactly when the exchange runs into the chip's timeout. Any answer
    /// counts as a refusal and is reported as a protocol error.
    pub fn picc_halta(&mut self) -> (r: Result<(), PCDErrorCode>)
        ensures
            final(self).extends(old(self)),
            stops_at_fault(final(self).journal_since(old(self))),
            r == Err::<(), PCDErrorCode>(PCDErrorCode::Transport) <==> !fault_free(
                final(self).journal_since(old(self)),
            ),
            exists|w: HaltRun| #[trigger] is_halt_call(final(self).journal_since(old(self)), w, r),
    {
        let ghost s0 = *self;
        let ghost cuts0 = no_cuts();
        let ghost run0 = ExchangeRun {
            cuts: cuts0,
            sent: Err(PCDErrorCode::Transport),
            back: Seq::empty(),
            len: 0,
            bits: 0,
        };
        let mut frame = [0u8; 4];
        frame[0] = PICCCommand::PICC_CMD_HLTA;
        assert(frame@.take(2) =~= seq![PICCCommand::PICC_CMD_HLTA, 0u8]);
        let sum = self.pcd_calc_crc(&frame, 2);
        let ghost s1 = *self;
        let ghost c = s1.journal_since(&s0).len() as int;
        let ghost payload = seq![PICCCommand::PICC_CMD_HLTA, 0u8];
        let ghost p = choose|p: int| is_crc_call(s1.journal_since(&s0), payload, p, sum);
        let crc = match sum {
            Ok(v) => v,
            Err(e) => {
                proof {
                    let d = self.journal_since(&s0);
                    assert(d.take(c) =~= d);
                    let w = HaltRun { crc_polls: p, crc: sum, crc_end: c, exchange: run0 };
                    assert(is_halt_call(d, w, Err(e)));
                }
                return Err(e);
            },
        };
        frame[2] = crc[0];
        frame[3] = crc[1];
        let mut none_back = [0u8; 1];
        let mut back_len: u8 = 0;
        let mut valid_bits: u8 = 0;
        assert(none_back@ =~= zeros(1));
        assert(frame@.take(4) =~= seq![PICCCommand::PICC_CMD_HLTA, 0u8, crc[0], crc[1]]);
        let sent = self.pcd_transceive_data(
            &frame,
            4,
            &mut none_back,
            &mut back_len,
            &mut valid_bits,
            0,
            false,
        );
        let r = halt_result(sent);
        proof {
            Self::lemma_run_on(&s0, &s1, self);
            let d = self.journal_since(&s0);
            let x = self.journal_since(&s1);
            assert(d.take(c) =~= s1.journal_since(&s0));
            assert(d.skip(c) =~= x);
            let e0 = ExchangeRun {
                cuts: cuts0,
                sent,
                back: none_back@,
                len: back_len,
                bits: valid_bits,
            };
            let call = halt_call(crc, e0);
            let k = choose|k: CommandCuts| #[trigger] is_command_call(x, call, k);
            let e = ExchangeRun { cuts: k, ..e0 };
            assert(halt_call(crc, e) == call);
            let w = HaltRun { crc_polls: p, crc: sum, crc_end: c, exchange: e };
            assert(is_halt_call(d, w, r));
        }
        r
    }

    /// Reads the identifier of one card in the field: a fresh identifier of
    /// the given length, filled by a selection that starts at the first
    /// cascade level with no bit known.
    pub fn get_card(&mut self, size: UidSize) -> (r: Result<Uid, PCDErrorCode>)
        ensures
            final(self).extends(old(self)),
            stops_at_fault(final(self).journal_since(old(self))),
            r == Err::<Uid, PCDErrorCode>(PCDErrorCode::Transport) <==> !fault_free(
                final(self).journal_since(old(self)),
            ),
            exists|levels: Seq<Level>, last: UidView| #[trigger]
                is_select_call(
                    final(self).journal_since(old(self)),
                    fresh_uid(size),
                    0,
                    levels,
                    last,
                    selection_result(r),
                ) && (r is Ok ==> r->Ok_0@ == last),
    {
        let mut uid = Uid { size: size.to_byte(), sak: 0, uid_bytes: [0; 10] };
        assert(uid@.bytes =~= fresh_uid(size).bytes);
        assert(uid@ == fresh_uid(size));
        let done = self.picc_select(&mut uid, 0);
        let r = match done {
            Ok(()) => Ok(uid),
            Err(e) => Err(e),
        };
        proof {
            let d = self.journal_since(old(self));
            let levels = choose|levels: Seq<Level>| #[trigger]
                is_select_call(d, fresh_uid(size), 0, levels, uid@, done);
            assert(done is Ok ==> done->Ok_0 == ());
            assert(selection_result(r) == done);
            assert(is_select_call(d, fresh_uid(size), 0, levels, uid@, selection_result(r)));
        }
        r
    }
}

} // verus!
