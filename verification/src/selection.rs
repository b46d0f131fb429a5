//! What the selection procedure does, stated over the values that the chip
//! and the card give back: the state of a cascade level, the effect of one
//! round on it, and the journal that a round, a level and a whole selection
//! leave behind.

use vstd::prelude::*;
use crate::anticoll::{
    FramePlan, spec_collision_position, spec_frame_plan, spec_level_known_bits, spec_marked,
    spec_sak_incomplete, spec_sak_shape_ok, spec_sealed, spec_select_code, spec_stored,
    spec_uid_size, spec_uses_cascade_tag,
};
use crate::bus::{RegOp, asks_read, asks_write, value};
use crate::consts::{PCDCommand, PCDErrorCode, PCDRegister, PICCCommand, UidView};
use crate::pcd::{CommandCall, CommandCuts, bit_framing, is_command_call, is_crc_call};

verus! {

/// What came back in one round of a cascade level, and where the parts of the
/// round lie in its journal.
pub struct Round {
    /// The checksum of the full select frame, as the chip computed it. It is
    /// computed only in a round that starts with 32 or more known bits.
    pub frame_crc: Result<[u8; 2], PCDErrorCode>,
    /// Whether the write of the bit framing went through.
    pub framed: bool,
    /// How the exchange with the card ended: whether there was a collision,
    /// or why it failed.
    pub sent: Result<bool, PCDErrorCode>,
    /// The response window after the exchange, its length and the number of
    /// valid bits in its last byte (0 for all).
    pub back: Seq<u8>,
    pub len: u8,
    pub bits: u8,
    /// The collision register, read only after a collision.
    pub coll: Result<u8, PCDErrorCode>,
    /// The checksum of the select acknowledge, as the chip computed it. It is
    /// computed only over a collision-free answer of three full bytes to a
    /// full select frame.
    pub sak_crc: Result<[u8; 2], PCDErrorCode>,
    /// Journal positions, counted from the start of the round: the end of the
    /// frame checksum run, the phases of the exchange, and its end.
    pub frame_crc_polls: int,
    pub sealed_at: int,
    pub cuts: CommandCuts,
    pub answered_at: int,
    pub sak_crc_polls: int,
    /// The end of the round, counted from the start of the level.
    pub end: int,
}

/// How a round, or a run of rounds, leaves a cascade level.
pub enum RoundEnd {
    /// Another round is due, with this buffer and this many known bits.
    Next { buffer: Seq<u8>, known_bits: u8 },
    /// The card has acknowledged the select frame.
    Done { buffer: Seq<u8>, sak: u8 },
    Failed { error: PCDErrorCode },
}

/// The working buffer as a round sends it: the header completed, and for a
/// full select frame the checksum appended.
pub open spec fn spec_frame(buffer: Seq<u8>, known_bits: u8, w: Round) -> Seq<u8> {
    if known_bits >= 32 && w.frame_crc is Ok {
        spec_sealed(buffer, known_bits).update(7, w.frame_crc->Ok_0[0]).update(
            8,
            w.frame_crc->Ok_0[1],
        )
    } else {
        spec_sealed(buffer, known_bits)
    }
}

/// The response window before the exchange: the part of the frame from the
/// answer's place on, so that the bits of a partly known byte are kept.
pub open spec fn spec_window(frame: Seq<u8>, plan: FramePlan) -> Seq<u8> {
    Seq::new(9, |j: int| if j < plan.capacity { frame[plan.index + j] } else { 0u8 })
}

/// The working buffer with the answer laid into its place.
pub open spec fn spec_merged(frame: Seq<u8>, plan: FramePlan, back: Seq<u8>, len: u8) -> Seq<u8> {
    Seq::new(
        9,
        |j: int| if plan.index <= j < plan.index + len { back[j - plan.index] } else { frame[j] },
    )
}

/// The effect of what follows the exchange on a level whose buffer `merged`
/// holds the answer already.
///
/// A collision moves the known bits up to the colliding bit, which is set.
/// A collision-free answer to a partial frame makes all 32 bits known. A
/// collision-free answer to the full select frame ends the level if it is an
/// acknowledge byte with a matching checksum. Everything else fails the level.
pub open spec fn settle_end(merged: Seq<u8>, known_bits: u8, w: Round) -> RoundEnd {
    match w.sent {
        Err(e) => RoundEnd::Failed { error: e },
        Ok(true) => match w.coll {
            Err(e) => RoundEnd::Failed { error: e },
            Ok(v) => match spec_collision_position(v) {
                Err(e) => RoundEnd::Failed { error: e },
                Ok(pos) => if pos <= known_bits {
                    RoundEnd::Failed { error: PCDErrorCode::ProtocolInconsistency }
                } else {
                    RoundEnd::Next { buffer: spec_marked(merged, pos), known_bits: pos }
                },
            },
        },
        Ok(false) => if known_bits < 32 {
            RoundEnd::Next { buffer: merged, known_bits: 32 }
        } else if !spec_sak_shape_ok(w.len, w.bits) {
            RoundEnd::Failed { error: PCDErrorCode::InvalidSak }
        } else {
            match w.sak_crc {
                Err(e) => RoundEnd::Failed { error: e },
                Ok(crc) => if crc[0] != w.back[1] || crc[1] != w.back[2] {
                    RoundEnd::Failed { error: PCDErrorCode::CrcMismatch }
                } else {
                    RoundEnd::Done { buffer: merged, sak: w.back[0] }
                },
            }
        },
    }
}

/// The effect of one round on a level that has `buffer` and `known_bits`:
/// a failure of the frame checksum or of the write of the bit framing fails
/// the level; otherwise the answer is laid into the frame and what follows
/// the exchange decides.
pub open spec fn round_end(buffer: Seq<u8>, known_bits: u8, w: Round) -> RoundEnd {
    if known_bits >= 32 && w.frame_crc is Err {
        RoundEnd::Failed { error: w.frame_crc->Err_0 }
    } else if !w.framed {
        RoundEnd::Failed { error: PCDErrorCode::Transport }
    } else {
        settle_end(
            spec_merged(
                spec_frame(buffer, known_bits, w),
                spec_frame_plan(known_bits),
                w.back,
                w.len,
            ),
            known_bits,
            w,
        )
    }
}

/// The exchange of a round as a call of the command engine.
pub open spec fn round_call(buffer: Seq<u8>, known_bits: u8, w: Round) -> CommandCall {
    let plan = spec_frame_plan(known_bits);
    let frame = spec_frame(buffer, known_bits, w);
    CommandCall {
        cmd: PCDCommand::Transceive,
        wait_irq: 0x30,
        data: frame.take(plan.send_len as int),
        tx_last_bits: plan.tx_last_bits,
        rx_align: plan.tx_last_bits,
        capacity: plan.capacity,
        check_crc: false,
        back_before: spec_window(frame, plan),
        back_after: w.back,
        len_after: w.len,
        bits_after: w.bits,
        result: w.sent,
    }
}

/// Whether the round got as far as the exchange with the card: the frame
/// checksum, where one was due, and the write of the bit framing went through.
pub open spec fn reaches_exchange(known_bits: u8, w: Round) -> bool {
    (known_bits < 32 || w.frame_crc is Ok) && w.framed
}

/// `d` begins with the sending part of the round `w` on a level that has
/// `buffer` and `known_bits`: for a full select frame the checksum of its
/// first seven bytes is computed; the bit framing is written; the frame is
/// exchanged. The first failure ends the round.
pub open spec fn is_send_journal(d: Seq<RegOp>, buffer: Seq<u8>, known_bits: u8, w: Round) -> bool {
    let plan = spec_frame_plan(known_bits);
    let full = known_bits >= 32;
    let a = w.sealed_at;
    let b = w.answered_at;
    let sealed = !full || w.frame_crc is Ok;
    &&& 0 <= a <= d.len()
    &&& (!full ==> a == 0)
    &&& (full ==> is_crc_call(
        d.take(a),
        spec_sealed(buffer, known_bits).take(7),
        w.frame_crc_polls,
        w.frame_crc,
    ))
    &&& (!sealed ==> d.len() == a)
    &&& (sealed ==> d.len() > a && asks_write(
        d[a],
        PCDRegister::BitFramingReg,
        bit_framing(plan.tx_last_bits, plan.tx_last_bits),
    ) && w.framed == d[a].ok())
    &&& (sealed && !w.framed ==> d.len() == a + 1)
    &&& (reaches_exchange(known_bits, w) ==> a + 1 <= b <= d.len() && is_command_call(
        d.subrange(a + 1, b),
        round_call(buffer, known_bits, w),
        w.cuts,
    ))
}

/// `t` is what follows the exchange in the journal of the round `w`: after
/// a collision the collision register is read; after a collision-free
/// answer of three full bytes to a full select frame the checksum of its
/// first byte is computed; otherwise nothing follows.
pub open spec fn is_settle_journal(t: Seq<RegOp>, known_bits: u8, w: Round) -> bool {
    match w.sent {
        Err(_) => t.len() == 0,
        Ok(true) => t.len() == 1 && asks_read(t[0], PCDRegister::CollReg, 1) && w.coll == (
        if t[0].ok() {
            Ok::<u8, PCDErrorCode>(value(t[0]))
        } else {
            Err::<u8, PCDErrorCode>(PCDErrorCode::Transport)
        }),
        Ok(false) => if known_bits >= 32 && spec_sak_shape_ok(w.len, w.bits) {
            is_crc_call(t, w.back.take(1), w.sak_crc_polls, w.sak_crc)
        } else {
            t.len() == 0
        },
    }
}

/// `d` is the journal of the round `w` on a level that has `buffer` and
/// `known_bits`: the sending part, and after an exchange what follows it.
pub open spec fn is_round_journal(
    d: Seq<RegOp>,
    buffer: Seq<u8>,
    known_bits: u8,
    w: Round,
) -> bool {
    &&& is_send_journal(d, buffer, known_bits, w)
    &&& (reaches_exchange(known_bits, w) ==> is_settle_journal(
        d.skip(w.answered_at),
        known_bits,
        w,
    ))
}

/// The sending part of a round stays what it is when more follows the
/// exchange and when only what follows the exchange changes in the record
/// of the round.
pub proof fn lemma_send_journal_extends(
    d1: Seq<RegOp>,
    d2: Seq<RegOp>,
    buffer: Seq<u8>,
    known_bits: u8,
    w1: Round,
    w2: Round,
)
    requires
        is_send_journal(d1, buffer, known_bits, w1),
        reaches_exchange(known_bits, w1),
        w1.answered_at == d1.len(),
        d1.len() <= d2.len(),
        forall|i: int| 0 <= i < d1.len() ==> d2[i] == d1[i],
        w2.frame_crc == w1.frame_crc,
        w2.framed == w1.framed,
        w2.sent == w1.sent,
        w2.back == w1.back,
        w2.len == w1.len,
        w2.bits == w1.bits,
        w2.frame_crc_polls == w1.frame_crc_polls,
        w2.sealed_at == w1.sealed_at,
        w2.cuts == w1.cuts,
        w2.answered_at == w1.answered_at,
    ensures
        is_send_journal(d2, buffer, known_bits, w2),
{
    let a = w1.sealed_at;
    let b = w1.answered_at;
    assert(d2.take(a) =~= d1.take(a));
    assert(d2.subrange(a + 1, b) =~= d1.subrange(a + 1, b));
    assert(round_call(buffer, known_bits, w2) == round_call(buffer, known_bits, w1));
}

/// How a run of rounds leaves a level that started with `buffer` and
/// `known_bits`. Rounds that follow the end of the level do not count.
pub open spec fn level_end(buffer: Seq<u8>, known_bits: u8, rounds: Seq<Round>) -> RoundEnd
    decreases rounds.len(),
{
    if rounds.len() == 0 {
        RoundEnd::Next { buffer, known_bits }
    } else {
        match level_end(buffer, known_bits, rounds.drop_last()) {
            RoundEnd::Next { buffer: b, known_bits: k } => round_end(b, k, rounds.last()),
            other => other,
        }
    }
}

/// `d` is the journal of the rounds `rounds`, one after the other, on a level
/// that started with `buffer` and `known_bits`; every round but the last
/// called for another round.
pub open spec fn is_level_journal(
    d: Seq<RegOp>,
    buffer: Seq<u8>,
    known_bits: u8,
    rounds: Seq<Round>,
) -> bool
    decreases rounds.len(),
{
    if rounds.len() == 0 {
        d.len() == 0
    } else {
        let before = rounds.drop_last();
        let n = if before.len() == 0 {
            0
        } else {
            before.last().end
        };
        &&& 0 <= n <= d.len()
        &&& rounds.last().end == d.len()
        &&& is_level_journal(d.take(n), buffer, known_bits, before)
        &&& level_end(buffer, known_bits, before) is Next
        &&& is_round_journal(
            d.skip(n),
            level_end(buffer, known_bits, before)->Next_buffer,
            level_end(buffer, known_bits, before)->known_bits,
            rounds.last(),
        )
    }
}

/// The rounds of one cascade level, and where the level ends in the journal
/// of the selection, counted from the start of the first level.
pub struct Level {
    pub rounds: Seq<Round>,
    pub end: int,
}

/// How a cascade level, or a run of levels, leaves the selection.
pub enum SelectEnd {
    /// Another level is due; the identifier holds the bytes of the levels
    /// before it.
    Next { uid_bytes: Seq<u8>, level: u8 },
    /// The card is selected.
    Done { uid_bytes: Seq<u8>, sak: u8, size: u8 },
    /// The selection failed; the identifier holds the bytes of the levels
    /// that were completed.
    Failed { uid_bytes: Seq<u8>, error: PCDErrorCode },
}

/// The working buffer at the start of a level: the select code, a cascade
/// tag where one is used, and zeros.
pub open spec fn spec_level_buffer(level: u8, cascade: bool) -> Seq<u8> {
    Seq::new(
        9,
        |j: int|
            if j == 0 {
                spec_select_code(level)->Some_0
            } else if j == 2 && cascade {
                PICCCommand::PICC_CMD_CT
            } else {
                0u8
            },
    )
}

/// The buffer with which `level` starts in a selection that was called with
/// `valid_bits` for an identifier of `uid_size` bytes.
pub open spec fn level_start_buffer(level: u8, valid_bits: u8, uid_size: u8) -> Seq<u8> {
    spec_level_buffer(level, spec_uses_cascade_tag(level, valid_bits, uid_size))
}

/// The number of known bits with which `level` starts.
pub open spec fn level_start_bits(level: u8, valid_bits: u8, uid_size: u8) -> u8 {
    spec_level_known_bits(
        valid_bits,
        level,
        spec_uses_cascade_tag(level, valid_bits, uid_size),
    ) as u8
}

/// The effect of the rounds of `level` on a selection that has `uid_bytes`.
///
/// A level that the card acknowledged stores its bytes in the identifier. An
/// acknowledge with the cascade bit calls for the next level, of which there
/// are three; one without it completes the identifier, whose length follows
/// from the level. A level that failed leaves the identifier as it was.
pub open spec fn level_result(
    uid_bytes: Seq<u8>,
    uid_size: u8,
    valid_bits: u8,
    level: u8,
    rounds: Seq<Round>,
) -> SelectEnd {
    match level_end(
        level_start_buffer(level, valid_bits, uid_size),
        level_start_bits(level, valid_bits, uid_size),
        rounds,
    ) {
        RoundEnd::Done { buffer, sak } => {
            let stored = spec_stored(uid_bytes, buffer, level);
            if !spec_sak_incomplete(sak) {
                SelectEnd::Done { uid_bytes: stored, sak, size: spec_uid_size(level) }
            } else if level >= 3 {
                SelectEnd::Failed { uid_bytes: stored, error: PCDErrorCode::TooManyCascadeLevels }
            } else {
                SelectEnd::Next { uid_bytes: stored, level: (level + 1) as u8 }
            }
        },
        RoundEnd::Failed { error } => SelectEnd::Failed { uid_bytes, error },
        RoundEnd::Next { .. } => SelectEnd::Next { uid_bytes, level },
    }
}

/// How a run of levels leaves a selection that started at the first level
/// with `uid_bytes`. Levels that follow the end of the selection do not count.
pub open spec fn select_end(
    uid_bytes: Seq<u8>,
    uid_size: u8,
    valid_bits: u8,
    levels: Seq<Level>,
) -> SelectEnd
    decreases levels.len(),
{
    if levels.len() == 0 {
        SelectEnd::Next { uid_bytes, level: 1 }
    } else {
        match select_end(uid_bytes, uid_size, valid_bits, levels.drop_last()) {
            SelectEnd::Next { uid_bytes: bytes, level } => level_result(
                bytes,
                uid_size,
                valid_bits,
                level,
                levels.last().rounds,
            ),
            other => other,
        }
    }
}

/// `d` is the journal of the levels `levels`, one after the other; every
/// level ran its rounds to an acknowledge or a failure, and every level but
/// the last called for another level.
pub open spec fn is_select_journal(
    d: Seq<RegOp>,
    uid_bytes: Seq<u8>,
    uid_size: u8,
    valid_bits: u8,
    levels: Seq<Level>,
) -> bool
    decreases levels.len(),
{
    if levels.len() == 0 {
        d.len() == 0
    } else {
        let before = levels.drop_last();
        let n = if before.len() == 0 {
            0
        } else {
            before.last().end
        };
        let start = select_end(uid_bytes, uid_size, valid_bits, before);
        &&& 0 <= n <= d.len()
        &&& levels.last().end == d.len()
        &&& is_select_journal(d.take(n), uid_bytes, uid_size, valid_bits, before)
        &&& start is Next
        &&& levels.last().rounds.len() >= 1
        &&& is_level_journal(
            d.skip(n),
            level_start_buffer(start->level, valid_bits, uid_size),
            level_start_bits(start->level, valid_bits, uid_size),
            levels.last().rounds,
        )
        &&& !(level_end(
            level_start_buffer(start->level, valid_bits, uid_size),
            level_start_bits(start->level, valid_bits, uid_size),
            levels.last().rounds,
        ) is Next)
    }
}

/// The first entries of the journal of a request or a selection: the bit that
/// keeps received bits after a collision is cleared in the collision
/// register, so that nothing of an earlier scan is left.
pub open spec fn starts_fresh(d: Seq<RegOp>) -> bool {
    &&& d.len() >= 1
    &&& asks_read(d[0], PCDRegister::CollReg, 1)
    &&& (d.len() >= 2 ==> d[0].ok() && asks_write(
        d[1],
        PCDRegister::CollReg,
        value(d[0]) & !0x80u8,
    ))
    &&& (d.len() == 1 ==> !d[0].ok())
}

/// `d` is the journal of a selection that was called with `valid_bits`, at
/// most 80, and the identifier `before`, went through `levels`, and ended
/// with `r` and the identifier `after`.
///
/// The collision register is prepared first; a fault there ends the call.
/// Then the levels follow from the first. On success the identifier holds
/// the bytes of all levels, the last acknowledge byte and the length. On
/// failure it holds the bytes of the levels that were completed, and its
/// acknowledge byte and length stay as they were.
pub open spec fn is_select_call(
    d: Seq<RegOp>,
    before: UidView,
    valid_bits: u8,
    levels: Seq<Level>,
    after: UidView,
    r: Result<(), PCDErrorCode>,
) -> bool {
    &&& starts_fresh(d)
    &&& if d.len() < 2 || !d[1].ok() {
        &&& d.len() <= 2
        &&& levels.len() == 0
        &&& r == Err::<(), PCDErrorCode>(PCDErrorCode::Transport)
        &&& after == before
    } else {
        &&& levels.len() >= 1
        &&& is_select_journal(d.skip(2), before.bytes, before.size, valid_bits, levels)
        &&& select_end(before.bytes, before.size, valid_bits, levels) == (match r {
            Ok(()) => SelectEnd::Done { uid_bytes: after.bytes, sak: after.sak, size: after.size },
            Err(e) => SelectEnd::Failed { uid_bytes: after.bytes, error: e },
        })
        &&& (r is Err ==> after.sak == before.sak && after.size == before.size)
    }
}

} // verus!
