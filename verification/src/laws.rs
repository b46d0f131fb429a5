//! Laws of the driver that follow from the contracts of its functions.

use vstd::prelude::*;
use crate::anticoll::{spec_frame_plan, spec_sak_incomplete, spec_stored, spec_uses_cascade_tag};
use crate::bus::{RegOp, asks_read, value};
use crate::consts::{PCDErrorCode, PCDRegister, PICCCommand, UidSize, UidView};
use crate::pcd::{
    CommandCall, CommandCuts, collect_complete, is_command_call, is_crc_call, is_init_run,
    is_reset_run,
};
use crate::picc::{ExchangeRun, fresh_uid, is_presence_call, is_request_call, request_call};
use crate::selection::{
    Level, Round, RoundEnd, SelectEnd, is_select_call, is_select_journal, level_end, level_result, level_start_bits,
    level_start_buffer, round_end, select_end, spec_frame, spec_merged,
};

verus! {

/// Reset bound: a reset looks at the command register at most three times,
/// and a look that shows the power-down bit clear is the last entry of its
/// journal: nothing is read or waited for after it.
pub proof fn lemma_reset_bound(d: Seq<RegOp>)
    requires
        is_reset_run(d),
    ensures
        forall|i: int| 0 <= i < d.len() && (#[trigger] d[i]) is Read ==> i == 1 || i == 3 || i == 5,
        forall|i: int|
            0 <= i < d.len() && (#[trigger] d[i]) is Read && value(d[i]) & 0x10 == 0 ==> i
                == d.len() - 1,
{
    assert forall|i: int| 0 <= i < d.len() && (#[trigger] d[i]) is Read implies i == 1 || i == 3
        || i == 5 by {
        if i >= 2 && i % 2 == 0 {
            assert(d[i] is Pause);
        }
    }
    assert forall|i: int|
        0 <= i < d.len() && (#[trigger] d[i]) is Read && value(d[i]) & 0x10 == 0 implies i
            == d.len() - 1 by {
        if i < d.len() - 1 {
            assert(d[i + 1] is Pause);
        }
    }
}

/// Reset bound at start-up: the reset with which start-up begins obeys the
/// same bound.
pub proof fn lemma_init_reset_bound(d: Seq<RegOp>, k: int)
    requires
        is_init_run(d, k),
    ensures
        1 <= k <= 7,
        forall|i: int| 0 <= i < k && (#[trigger] d[i]) is Read ==> i == 1 || i == 3 || i == 5,
        forall|i: int|
            0 <= i < k && (#[trigger] d[i]) is Read && value(d[i]) & 0x10 == 0 ==> i == k - 1,
{
    let t = d.take(k);
    lemma_reset_bound(t);
    assert forall|i: int| 0 <= i < k && (#[trigger] d[i]) is Read implies i == 1 || i == 3 || i
        == 5 by {
        assert(t[i] == d[i]);
    }
    assert forall|i: int|
        0 <= i < k && (#[trigger] d[i]) is Read && value(d[i]) & 0x10 == 0 implies i == k - 1 by {
        assert(t[i] == d[i]);
    }
}

/// Negative presence: a presence check reports a card only if the exchange
/// went through, the chip reported a buffer level of exactly two bytes and
/// the control register showed no invalid bits in the last byte. Whatever
/// else the chip returns, the check ends in an error.
pub proof fn lemma_presence_needs_atqa(d: Seq<RegOp>, w: ExchangeRun, r: Result<bool, PCDErrorCode>)
    requires
        is_presence_call(d, w, r),
        r is Ok,
    ensures
        r == Ok::<bool, PCDErrorCode>(true),
        w.sent is Ok,
        w.len == 2,
        w.bits == 0,
        ({
            let coll = d.skip(3).skip(2).subrange(w.cuts.polled, w.cuts.collected);
            &&& coll.len() == 4
            &&& asks_read(coll[1], PCDRegister::FIFOLevelReg, 1)
            &&& value(coll[1]) == 2
            &&& asks_read(coll[3], PCDRegister::ControlReg, 1)
            &&& value(coll[3]) & 0x07 == 0
        }),
{
    reveal(is_command_call);
    let x = d.skip(3);
    assert(is_request_call(x, PICCCommand::PICC_CMD_REQA, 2, crate::picc::zeros(2), w, Ok(())));
    let call = request_call(PICCCommand::PICC_CMD_REQA, 2, crate::picc::zeros(2), w);
    assert(is_command_call(x.skip(2), call, w.cuts));
    let coll = x.skip(2).subrange(w.cuts.polled, w.cuts.collected);
    assert(collect_complete(coll, 2));
}

/// Progress: a round that calls for another round has made more bits known
/// than there were, and never more than 32. A level therefore ends after 33
/// rounds at most.
pub proof fn lemma_round_makes_progress(buffer: Seq<u8>, known_bits: u8, w: Round)
    requires
        round_end(buffer, known_bits, w) is Next,
    ensures
        known_bits < round_end(buffer, known_bits, w)->known_bits <= 32,
{
    if w.sent == Ok::<bool, PCDErrorCode>(true) {
        let v = w.coll->Ok_0;
        assert(v & 0x1F <= 31) by (bit_vector);
    }
}

/// Cascade levels: a selection goes through the levels in order from the
/// first, and through three of them at most.
pub proof fn lemma_levels_in_order(
    d: Seq<RegOp>,
    bytes: Seq<u8>,
    uid_size: u8,
    valid_bits: u8,
    levels: Seq<Level>,
)
    requires
        is_select_journal(d, bytes, uid_size, valid_bits, levels),
    ensures
        levels.len() <= 3,
        select_end(bytes, uid_size, valid_bits, levels) is Next ==> levels.len() <= 2
            && select_end(bytes, uid_size, valid_bits, levels)->level == levels.len() + 1,
    decreases levels.len(),
{
    if levels.len() > 0 {
        let before = levels.drop_last();
        let n = if before.len() == 0 {
            0
        } else {
            before.last().end
        };
        lemma_levels_in_order(d.take(n), bytes, uid_size, valid_bits, before);
    }
}

/// Checksum consistency: the command engine reports a checksum mismatch
/// only if the caller asked for the check and the collision-free response is
/// shorter than two bytes, or ends in an incomplete byte, or its last two
/// bytes differ from the checksum that the chip computed over the bytes
/// before them. A response that carries the chip's own checksum is never
/// refused.
pub proof fn lemma_no_false_mismatch(d: Seq<RegOp>, c: CommandCall, k: CommandCuts)
    requires
        is_command_call(d, c, k),
        c.result == Err::<bool, PCDErrorCode>(PCDErrorCode::CrcMismatch),
    ensures
        c.check_crc,
        c.capacity > 0,
        c.len_after < 2 || c.bits_after != 0 || (k.crc is Ok && (k.crc->Ok_0[0]
            != c.back_after[c.len_after - 2] || k.crc->Ok_0[1] != c.back_after[c.len_after - 1])),
        d.len() > k.collected ==> is_crc_call(
            d.subrange(k.collected, d.len() as int),
            c.back_after.take(c.len_after - 2),
            k.crc_polls,
            k.crc,
        ),
{
    reveal(is_command_call);
}

/// A round in which a card with the level bytes `cl` answers a frame that
/// carries no known bit: no collision, and the four bytes with their check
/// byte come back, all bits valid.
pub open spec fn answers_all(w: Round, cl: Seq<u8>) -> bool {
    &&& w.framed
    &&& w.sent == Ok::<bool, PCDErrorCode>(false)
    &&& w.len == 5
    &&& w.bits == 0
    &&& w.back.len() == 9
    &&& forall|j: int| 0 <= j < 4 ==> w.back[j] == cl[j]
}

/// A round in which the card acknowledges the full select frame with `sak`:
/// no collision, three full bytes come back, and the chip computes for the
/// first the checksum that the other two are.
pub open spec fn acknowledges(w: Round, sak: u8) -> bool {
    &&& w.frame_crc is Ok
    &&& w.framed
    &&& w.sent == Ok::<bool, PCDErrorCode>(false)
    &&& w.len == 3
    &&& w.bits == 0
    &&& w.back.len() == 9
    &&& w.back[0] == sak
    &&& w.sak_crc is Ok
    &&& w.sak_crc->Ok_0[0] == w.back[1]
    &&& w.sak_crc->Ok_0[1] == w.back[2]
}

/// The identifier `bytes` with its first four bytes replaced by `cl`.
pub open spec fn with_first_four(bytes: Seq<u8>, cl: Seq<u8>) -> Seq<u8> {
    Seq::new(10, |j: int| if j < 4 { cl[j] } else { bytes[j] })
}

/// Selection correctness: a selection with no bit known, in whose first
/// round a card answers with its four identifier bytes `cl` and in whose
/// second round it acknowledges the select frame with a final `sak`, ends
/// after these two rounds at the first cascade level with `cl` as the first
/// four bytes of the identifier, `sak` as its acknowledge byte and 4 as its
/// length. (The first byte of a four-byte identifier is never the cascade
/// tag.)
pub proof fn lemma_select_single_card(
    bytes: Seq<u8>,
    uid_size: u8,
    cl: Seq<u8>,
    sak: u8,
    r1: Round,
    r2: Round,
    end: int,
)
    requires
        bytes.len() == 10,
        cl.len() == 4,
        cl[0] != PICCCommand::PICC_CMD_CT,
        !spec_sak_incomplete(sak),
        answers_all(r1, cl),
        acknowledges(r2, sak),
    ensures
        level_end(level_start_buffer(1, 0, uid_size), level_start_bits(1, 0, uid_size), seq![r1])
            is Next,
        select_end(bytes, uid_size, 0, seq![Level { rounds: seq![r1, r2], end }]) == (
        SelectEnd::Done { uid_bytes: with_first_four(bytes, cl), sak, size: 4 }),
{
    let b0 = level_start_buffer(1, 0, uid_size);
    let k0 = level_start_bits(1, 0, uid_size);
    assert(!spec_uses_cascade_tag(1, 0, uid_size));
    assert(k0 == 0);
    let rounds = seq![r1, r2];
    let first = rounds.drop_last();
    assert(first =~= seq![r1]);
    assert(first.drop_last() =~= Seq::<Round>::empty());
    reveal_with_fuel(level_end, 3);
    let none = Seq::<Round>::empty();
    assert(level_end(b0, k0, none) == (RoundEnd::Next { buffer: b0, known_bits: 0 }));
    let e1 = round_end(b0, 0, r1);
    assert(level_end(b0, k0, first) == e1);
    let f1 = spec_frame(b0, 0, r1);
    let m1 = spec_merged(f1, spec_frame_plan(0), r1.back, r1.len);
    assert(e1 == (RoundEnd::Next { buffer: m1, known_bits: 32 }));
    assert(forall|j: int| 0 <= j < 4 ==> m1[2 + j] == cl[j]);
    let e2 = round_end(m1, 32, r2);
    assert(level_end(b0, k0, rounds) == e2);
    let f2 = spec_frame(m1, 32, r2);
    let m2 = spec_merged(f2, spec_frame_plan(32), r2.back, r2.len);
    assert(e2 == (RoundEnd::Done { buffer: m2, sak }));
    assert(forall|j: int| 0 <= j < 4 ==> m2[2 + j] == cl[j]);
    let stored = spec_stored(bytes, m2, 1);
    assert(stored =~= with_first_four(bytes, cl));
    let levels = seq![Level { rounds, end }];
    assert(levels.drop_last() =~= Seq::<Level>::empty());
    reveal_with_fuel(select_end, 2);
    assert(select_end(bytes, uid_size, 0, levels) == level_result(bytes, uid_size, 0, 1, rounds));
}

/// Selection correctness, as the caller sees it: a call for a fresh
/// identifier whose selection consisted of these two rounds succeeds, and
/// the identifier returned starts with the four bytes of the card, carries
/// its acknowledge byte and has length 4.
pub proof fn lemma_get_card_single_card(
    d: Seq<RegOp>,
    size: UidSize,
    cl: Seq<u8>,
    sak: u8,
    r1: Round,
    r2: Round,
    end: int,
    card: UidView,
    r: Result<(), PCDErrorCode>,
)
    requires
        cl.len() == 4,
        cl[0] != PICCCommand::PICC_CMD_CT,
        !spec_sak_incomplete(sak),
        answers_all(r1, cl),
        acknowledges(r2, sak),
        is_select_call(d, fresh_uid(size), 0, seq![Level { rounds: seq![r1, r2], end }], card, r),
    ensures
        r is Ok,
        card.bytes == with_first_four(fresh_uid(size).bytes, cl),
        card.bytes.take(4) == cl,
        card.sak == sak,
        card.size == 4,
{
    lemma_select_single_card(fresh_uid(size).bytes, fresh_uid(size).size, cl, sak, r1, r2, end);
    assert(card.bytes.take(4) =~= cl);
}

/// The bits of `x` below bit `n`.
pub open spec fn low_bits(x: u8, n: u8) -> u8 {
    x & !(0xFFu8 << n)
}

/// The bits of `x` from bit `n` on.
pub open spec fn high_bits(x: u8, n: u8) -> u8 {
    x & (0xFFu8 << n)
}

/// The bytes of `x` from index `at` on agree with `cl` in their first `n`
/// bits, counted in the order of transmission.
pub open spec fn agrees_below(x: Seq<u8>, at: int, cl: Seq<u8>, n: int) -> bool {
    &&& forall|j: int| 0 <= j < n / 8 ==> x[at + j] == cl[j]
    &&& (n % 8 != 0 ==> low_bits(x[at + n / 8], (n % 8) as u8) == low_bits(
        cl[n / 8],
        (n % 8) as u8,
    ))
}

/// A round in which the answer to a frame with no known bit collides at
/// position `pos`, counted from 1: the chip reports the collision and its
/// position, and the bits received before the colliding bit are those of the
/// card with the level bytes `cl`.
pub open spec fn collides_at(w: Round, cl: Seq<u8>, pos: u8) -> bool {
    &&& w.framed
    &&& w.sent == Ok::<bool, PCDErrorCode>(true)
    &&& w.coll is Ok
    &&& crate::anticoll::spec_collision_position(w.coll->Ok_0) == Ok::<u8, PCDErrorCode>(pos)
    &&& w.len * 8 >= pos
    &&& w.len <= 7
    &&& w.back.len() == 9
    &&& agrees_below(w.back, 0, cl, pos - 1)
}

/// A round in which the card with the level bytes `cl` answers a frame that
/// carries `known` known bits, fewer than 32: no collision; the rest of the
/// four bytes and the check byte come back, all bits valid; and the first
/// byte of the answer was laid over `kept`, the buffer byte whose low bits
/// were sent.
pub open spec fn answers_rest(w: Round, cl: Seq<u8>, known: u8, kept: u8) -> bool {
    &&& w.framed
    &&& w.sent == Ok::<bool, PCDErrorCode>(false)
    &&& w.bits == 0
    &&& w.len == 5 - known / 8
    &&& w.back.len() == 9
    &&& high_bits(w.back[0], known % 8) == high_bits(cl[known as int / 8], known % 8)
    &&& low_bits(w.back[0], known % 8) == low_bits(kept, known % 8)
    &&& forall|j: int| 1 <= j < 4 - known / 8 ==> w.back[j] == cl[known / 8 + j]
}

/// Setting the top bit of a byte that agrees with `u` below it gives `u`, if
/// `u` has the top bit.
proof fn lemma_mark_completes_byte(x: u8, u: u8)
    by (bit_vector)
    requires
        x & !(0xFFu8 << 7u8) == u & !(0xFFu8 << 7u8),
        u & (1u8 << 7u8) != 0,
    ensures
        x | (1u8 << 7u8) == u,
{
}

/// Setting bit `c` of a byte that agrees with `u` below bit `c` gives a byte
/// that agrees with `u` up to and including bit `c`, if `u` has that bit.
proof fn lemma_mark_extends_low_bits(x: u8, u: u8, c: u8)
    by (bit_vector)
    requires
        c < 7,
        x & !(0xFFu8 << c) == u & !(0xFFu8 << c),
        u & (1u8 << c) != 0,
    ensures
        (x | (1u8 << c)) & !(0xFFu8 << ((c + 1) as u8)) == u & !(0xFFu8 << ((c + 1) as u8)),
{
}

/// Two bytes that agree below bit `a` and from bit `a` on are equal.
proof fn lemma_low_and_high_bits(x: u8, u: u8, a: u8)
    by (bit_vector)
    requires
        a < 8,
        x & !(0xFFu8 << a) == u & !(0xFFu8 << a),
        x & (0xFFu8 << a) == u & (0xFFu8 << a),
    ensures
        x == u,
{
}

/// There are no bits below bit 0.
proof fn lemma_no_low_bits(x: u8)
    by (bit_vector)
    ensures
        x & !(0xFFu8 << 0u8) == 0,
        x & (0xFFu8 << 0u8) == x,
{
}

/// Collision recovery: a selection with no bit known, whose first answer
/// collides at position `pos` below 32 where the card with the level bytes
/// `cl` has a one, takes exactly one partial frame more than a selection
/// without a collision: the round of the collision makes `pos` bits known,
/// the next round, which sends these bits, makes all 32 known, and the third
/// round is the select frame. The identifier is that of the card: the bits
/// received before the collision are kept as they came.
pub proof fn lemma_select_after_collision(
    bytes: Seq<u8>,
    uid_size: u8,
    cl: Seq<u8>,
    sak: u8,
    pos: u8,
    r1: Round,
    r2: Round,
    r3: Round,
    end: int,
)
    requires
        bytes.len() == 10,
        cl.len() == 4,
        cl[0] != PICCCommand::PICC_CMD_CT,
        !spec_sak_incomplete(sak),
        1 <= pos <= 31,
        cl[(pos - 1) / 8] & (1u8 << (((pos - 1) % 8) as u8)) != 0,
        collides_at(r1, cl, pos),
        level_end(level_start_buffer(1, 0, uid_size), 0, seq![r1]) is Next ==> answers_rest(
            r2,
            cl,
            pos,
            level_end(level_start_buffer(1, 0, uid_size), 0, seq![r1])->Next_buffer[2 + pos / 8],
        ),
        acknowledges(r3, sak),
    ensures
        level_end(level_start_buffer(1, 0, uid_size), 0, seq![r1]) is Next,
        level_end(level_start_buffer(1, 0, uid_size), 0, seq![r1])->known_bits == pos,
        level_end(level_start_buffer(1, 0, uid_size), 0, seq![r1, r2]) is Next,
        level_end(level_start_buffer(1, 0, uid_size), 0, seq![r1, r2])->known_bits == 32,
        select_end(bytes, uid_size, 0, seq![Level { rounds: seq![r1, r2, r3], end }]) == (
        SelectEnd::Done { uid_bytes: with_first_four(bytes, cl), sak, size: 4 }),
{
    let b0 = level_start_buffer(1, 0, uid_size);
    assert(!spec_uses_cascade_tag(1, 0, uid_size));
    assert(level_start_bits(1, 0, uid_size) == 0);
    let rounds = seq![r1, r2, r3];
    let two = rounds.drop_last();
    let one = two.drop_last();
    assert(two =~= seq![r1, r2]);
    assert(one =~= seq![r1]);
    assert(one.drop_last() =~= Seq::<Round>::empty());
    reveal_with_fuel(level_end, 4);
    let none = Seq::<Round>::empty();
    assert(level_end(b0, 0, none) == (RoundEnd::Next { buffer: b0, known_bits: 0 }));

    // The round of the collision.
    let e1 = round_end(b0, 0, r1);
    assert(level_end(b0, 0, one) == e1);
    let f1 = spec_frame(b0, 0, r1);
    let m1 = spec_merged(f1, spec_frame_plan(0), r1.back, r1.len);
    let b1 = crate::anticoll::spec_marked(m1, pos);
    assert(e1 == (RoundEnd::Next { buffer: b1, known_bits: pos }));
    let q = (pos - 1) / 8;
    let c: u8 = ((pos - 1) % 8) as u8;
    assert(b1[0] == b0[0]);
    assert forall|j: int| 0 <= j < q implies b1[2 + j] == cl[j] by {
        assert(m1[2 + j] == r1.back[j]);
    }
    assert(m1[2 + q] == r1.back[q]);
    let x = r1.back[q];
    let u = cl[q];
    assert(b1[2 + q] == x | (1u8 << c));
    if c == 7 {
        assert(low_bits(x, 7) == low_bits(u, 7));
        lemma_mark_completes_byte(x, u);
        assert(b1[2 + q] == u);
    } else {
        if c == 0 {
            lemma_no_low_bits(x);
            lemma_no_low_bits(u);
        } else {
            assert(low_bits(x, c) == low_bits(u, c));
        }
        lemma_mark_extends_low_bits(x, u, c);
        assert(low_bits(b1[2 + q], (c + 1) as u8) == low_bits(u, (c + 1) as u8));
    }
    // What is known after it agrees with the card.
    let a: u8 = pos % 8;
    let h = pos as int / 8;
    assert forall|j: int| 0 <= j < h implies b1[2 + j] == cl[j] by {
        if j == q {
            assert(c == 7);
        }
    }

    // The round that sends the known bits.
    let e2 = round_end(b1, pos, r2);
    assert(level_end(b0, 0, two) == e2);
    let plan2 = spec_frame_plan(pos);
    let f2 = spec_frame(b1, pos, r2);
    let m2 = spec_merged(f2, plan2, r2.back, r2.len);
    assert(e2 == (RoundEnd::Next { buffer: m2, known_bits: 32 }));
    assert(plan2.index == 2 + h);
    assert(f2[2 + h] == b1[2 + h]);
    assert(m2[2 + h] == r2.back[0]);
    if a == 0 {
        lemma_no_low_bits(r2.back[0]);
        lemma_no_low_bits(cl[h]);
        assert(m2[2 + h] == cl[h]);
    } else {
        assert(h == q && a == c + 1);
        assert(low_bits(r2.back[0], a) == low_bits(cl[h], a));
        lemma_low_and_high_bits(r2.back[0], cl[h], a);
    }
    assert forall|j: int| 0 <= j < 4 implies m2[2 + j] == cl[j] by {
        if j < h {
            assert(m2[2 + j] == f2[2 + j]);
            assert(f2[2 + j] == b1[2 + j]);
        } else if j > h {
            assert(m2[2 + j] == r2.back[j - h]);
        }
    }

    // The select frame.
    let e3 = round_end(m2, 32, r3);
    assert(level_end(b0, 0, rounds) == e3);
    let f3 = spec_frame(m2, 32, r3);
    let m3 = spec_merged(f3, spec_frame_plan(32), r3.back, r3.len);
    assert(e3 == (RoundEnd::Done { buffer: m3, sak }));
    assert(forall|j: int| 0 <= j < 4 ==> m3[2 + j] == cl[j]);
    let stored = spec_stored(bytes, m3, 1);
    assert(stored =~= with_first_four(bytes, cl));
    let levels = seq![Level { rounds, end }];
    assert(levels.drop_last() =~= Seq::<Level>::empty());
    reveal_with_fuel(select_end, 2);
    assert(select_end(bytes, uid_size, 0, levels) == level_result(bytes, uid_size, 0, 1, rounds));
}

/// Collision recovery, as the caller sees it: a call for a fresh identifier
/// whose selection consisted of these three rounds succeeds, and the
/// identifier returned is that of the card.
pub proof fn lemma_get_card_after_collision(
    d: Seq<RegOp>,
    size: UidSize,
    cl: Seq<u8>,
    sak: u8,
    pos: u8,
    r1: Round,
    r2: Round,
    r3: Round,
    end: int,
    card: UidView,
    r: Result<(), PCDErrorCode>,
)
    requires
        cl.len() == 4,
        cl[0] != PICCCommand::PICC_CMD_CT,
        !spec_sak_incomplete(sak),
        1 <= pos <= 31,
        cl[(pos - 1) / 8] & (1u8 << (((pos - 1) % 8) as u8)) != 0,
        collides_at(r1, cl, pos),
        level_end(level_start_buffer(1, 0, size.spec_to_byte()), 0, seq![r1]) is Next
            ==> answers_rest(
            r2,
            cl,
            pos,
            level_end(level_start_buffer(1, 0, size.spec_to_byte()), 0, seq![r1])->Next_buffer[2
                + pos / 8],
        ),
        acknowledges(r3, sak),
        is_select_call(
            d,
            fresh_uid(size),
            0,
            seq![Level { rounds: seq![r1, r2, r3], end }],
            card,
            r,
        ),
    ensures
        r is Ok,
        card.bytes.take(4) == cl,
        card.sak == sak,
        card.size == 4,
{
    lemma_select_after_collision(
        fresh_uid(size).bytes,
        fresh_uid(size).size,
        cl,
        sak,
        pos,
        r1,
        r2,
        r3,
        end,
    );
    assert(card.bytes.take(4) =~= cl);
}

} // verus!
