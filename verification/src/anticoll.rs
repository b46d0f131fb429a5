//! The decisions of the anti-collision and selection procedure, as functions
//! of plain values: frame layout, known-bit bookkeeping, collision handling
//! and the assembly of the identifier.
//!
//! The working buffer of one cascade level has nine bytes: the select code,
//! the count of valid bits, four identifier bytes (a cascade tag counts as
//! one), their check byte, and two checksum bytes.

use vstd::prelude::*;
use crate::consts::{PCDErrorCode, PICCCommand, Uid};

verus! {

/// The select code of a cascade level; there are three levels.
pub open spec fn spec_select_code(level: u8) -> Option<u8> {
    if level == 1 {
        Some(PICCCommand::PICC_CMD_SEL_CL1)
    } else if level == 2 {
        Some(PICCCommand::PICC_CMD_SEL_CL2)
    } else if level == 3 {
        Some(PICCCommand::PICC_CMD_SEL_CL3)
    } else {
        None
    }
}

/// The select code of cascade level `level`, if there is such a level.
#[verifier::when_used_as_spec(spec_select_code)]
pub fn select_code(level: u8) -> (r: Option<u8>)
    ensures
        r == spec_select_code(level),
{
    if level == 1 {
        Some(PICCCommand::PICC_CMD_SEL_CL1)
    } else if level == 2 {
        Some(PICCCommand::PICC_CMD_SEL_CL2)
    } else if level == 3 {
        Some(PICCCommand::PICC_CMD_SEL_CL3)
    } else {
        None
    }
}

/// Where in the identifier the bytes of a cascade level go: each level but
/// the last contributes three bytes.
pub open spec fn spec_uid_offset(level: u8) -> u8 {
    if level == 1 {
        0
    } else if level == 2 {
        3
    } else {
        6
    }
}

/// The index in the identifier at which the bytes of `level` start.
#[verifier::when_used_as_spec(spec_uid_offset)]
pub fn uid_offset(level: u8) -> (r: u8)
    ensures
        r == spec_uid_offset(level),
{
    if level == 1 {
        0
    } else if level == 2 {
        3
    } else {
        6
    }
}

/// Whether the frame of this level starts with a cascade tag: only when some
/// bits are known and the identifier has bytes beyond this level.
pub open spec fn spec_uses_cascade_tag(level: u8, valid_bits: u8, uid_size: u8) -> bool {
    valid_bits != 0 && ((level == 1 && uid_size > 4) || (level == 2 && uid_size > 7))
}

/// Whether the frame of `level` starts with a cascade tag.
#[verifier::when_used_as_spec(spec_uses_cascade_tag)]
pub fn uses_cascade_tag(level: u8, valid_bits: u8, uid_size: u8) -> (r: bool)
    ensures
        r == spec_uses_cascade_tag(level, valid_bits, uid_size),
{
    valid_bits != 0 && ((level == 1 && uid_size > 4) || (level == 2 && uid_size > 7))
}

/// How many bits of this level's frame are known at its start: the known
/// bits of the identifier that lie at or beyond this level's offset, and
/// eight more for a cascade tag.
pub open spec fn spec_level_known_bits(valid_bits: u8, level: u8, cascade: bool) -> int {
    let past = valid_bits as int - 8 * spec_uid_offset(level) as int;
    (if past < 0 { 0 } else { past }) + (if cascade { 8int } else { 0 })
}

/// The number of known bits with which a level starts.
pub fn level_known_bits(valid_bits: u8, level: u8, cascade: bool) -> (r: u8)
    requires
        valid_bits <= 80,
    ensures
        r == spec_level_known_bits(valid_bits, level, cascade),
        r <= 88,
{
    let offset_bits: u8 = 8 * uid_offset(level);
    let past: u8 = if valid_bits > offset_bits { valid_bits - offset_bits } else { 0 };
    if cascade {
        past + 8
    } else {
        past
    }
}

/// The check byte of a select frame: the four identifier bytes folded with
/// exclusive or.
pub open spec fn spec_bcc(buffer: Seq<u8>) -> u8 {
    buffer[2] ^ buffer[3] ^ buffer[4] ^ buffer[5]
}

/// How a frame is sent and where its answer goes.
#[derive(Clone, Copy, Debug, PartialEq, Eq, Structural)]
pub struct FramePlan {
    /// Bits of the last byte to send; 0 for all. The first received bit is
    /// aligned to the same position.
    pub tx_last_bits: u8,
    /// Index in the working buffer at which the answer starts.
    pub index: u8,
    /// Number of buffer bytes to send.
    pub send_len: u8,
    /// Room for the answer.
    pub capacity: u8,
}

/// The plan of a frame with `known_bits` known bits. From 32 bits on the
/// whole select frame of nine bytes is sent and three bytes are expected.
/// Below that, the two header bytes and the known bits are sent, and the
/// answer continues where they end.
pub open spec fn spec_frame_plan(known_bits: u8) -> FramePlan {
    if known_bits >= 32 {
        FramePlan { tx_last_bits: 0, index: 6, send_len: 9, capacity: 3 }
    } else {
        FramePlan {
            tx_last_bits: known_bits % 8,
            index: (2 + known_bits / 8) as u8,
            send_len: (2 + known_bits / 8 + (if known_bits % 8 != 0 { 1int } else { 0 })) as u8,
            capacity: (7 - known_bits / 8) as u8,
        }
    }
}

/// The plan of the frame that a round with `known_bits` known bits sends.
#[verifier::when_used_as_spec(spec_frame_plan)]
pub fn frame_plan(known_bits: u8) -> (p: FramePlan)
    ensures
        p == spec_frame_plan(known_bits),
        p.tx_last_bits <= 7,
        2 <= p.index <= 6,
        p.index <= p.send_len <= 9,
        p.index + p.capacity == 9,
{
    if known_bits >= 32 {
        FramePlan { tx_last_bits: 0, index: 6, send_len: 9, capacity: 3 }
    } else {
        let tx_last_bits: u8 = known_bits % 8;
        let index: u8 = 2 + known_bits / 8;
        FramePlan {
            tx_last_bits,
            index,
            send_len: index + (if tx_last_bits != 0 { 1 } else { 0 }),
            capacity: 9 - index,
        }
    }
}

/// The second byte of a frame: the number of whole bytes sent, header
/// included, in the high half and the number of further bits in the low half.
pub open spec fn spec_valid_bits_byte(known_bits: u8) -> u8 {
    if known_bits >= 32 {
        0x70
    } else {
        ((2 + known_bits / 8) * 16 + known_bits % 8) as u8
    }
}

/// The working buffer with its header completed for a frame of `known_bits`
/// known bits: the count of valid bits is set, and for a full select frame
/// the check byte over the four identifier bytes as well.
pub open spec fn spec_sealed(buffer: Seq<u8>, known_bits: u8) -> Seq<u8> {
    if known_bits >= 32 {
        buffer.update(1, spec_valid_bits_byte(known_bits)).update(6, spec_bcc(buffer))
    } else {
        buffer.update(1, spec_valid_bits_byte(known_bits))
    }
}

/// Completes the header of the frame in `buffer`.
pub fn seal_frame(buffer: &mut [u8], known_bits: u8)
    requires
        old(buffer)@.len() == 9,
    ensures
        final(buffer)@ == spec_sealed(old(buffer)@, known_bits),
        final(buffer)@.len() == 9,
{
    if known_bits >= 32 {
        let check: u8 = buffer[2] ^ buffer[3] ^ buffer[4] ^ buffer[5];
        buffer[1] = 0x70;
        buffer[6] = check;
    } else {
        let index: u8 = 2 + known_bits / 8;
        assert(index << 4 == index * 16) by (bit_vector)
            requires
                index <= 5,
        ;
        buffer[1] = (index << 4) + known_bits % 8;
    }
    assert(buffer@ =~= spec_sealed(old(buffer)@, known_bits));
}

/// Where the chip saw the collision, counted from 1, as the collision
/// register tells it: the low five bits, with 0 standing for 32. A set
/// "position not valid" bit means that the chip cannot say.
pub open spec fn spec_collision_position(coll_reg: u8) -> Result<u8, PCDErrorCode> {
    if coll_reg & 0x20 != 0 {
        Err(PCDErrorCode::InvalidCollisionPosition)
    } else if coll_reg & 0x1F == 0 {
        Ok(32u8)
    } else {
        Ok(coll_reg & 0x1F)
    }
}

/// Reads the position of a collision from the value of the collision
/// register.
#[verifier::when_used_as_spec(spec_collision_position)]
pub fn collision_position(coll_reg: u8) -> (r: Result<u8, PCDErrorCode>)
    ensures
        r == spec_collision_position(coll_reg),
        r is Ok ==> 1 <= r->Ok_0 <= 32,
{
    if coll_reg & 0x20 != 0 {
        Err(PCDErrorCode::InvalidCollisionPosition)
    } else {
        let pos: u8 = coll_reg & 0x1F;
        assert(pos <= 31) by (bit_vector)
            requires
                pos == coll_reg & 0x1F,
        ;
        if pos == 0 {
            Ok(32)
        } else {
            Ok(pos)
        }
    }
}

/// Bit `i` of the identifier part of the working buffer, counted from 0 in
/// the order of transmission: low bit of the third byte first.
pub open spec fn uid_bit(buffer: Seq<u8>, i: int) -> bool {
    buffer[2 + i / 8] & (1u8 << ((i % 8) as u8)) != 0
}

/// The working buffer after a collision at position `pos`, counted from 1:
/// the colliding bit is set, nothing else changes.
pub open spec fn spec_marked(buffer: Seq<u8>, pos: u8) -> Seq<u8> {
    buffer.update(
        2 + (pos - 1) / 8,
        buffer[2 + (pos - 1) / 8] | (1u8 << (((pos - 1) % 8) as u8)),
    )
}

/// Takes note of a collision at position `pos`: the colliding bit is forced
/// to 1, so that repeated scans settle on one card, and the bits up to and
/// including it count as known. A collision among the bits already known
/// cannot be and is refused; the buffer then stays as it is.
pub fn mark_collision(buffer: &mut [u8], known_bits: u8, pos: u8) -> (r: Result<u8, PCDErrorCode>)
    requires
        old(buffer)@.len() == 9,
        1 <= pos <= 32,
    ensures
        final(buffer)@.len() == 9,
        pos <= known_bits ==> r == Err::<u8, PCDErrorCode>(PCDErrorCode::ProtocolInconsistency)
            && final(buffer)@ == old(buffer)@,
        pos > known_bits ==> r == Ok::<u8, PCDErrorCode>(pos) && final(buffer)@ == spec_marked(
            old(buffer)@,
            pos,
        ),
{
    if pos <= known_bits {
        return Err(PCDErrorCode::ProtocolInconsistency);
    }
    let check_bit: u8 = (pos - 1) % 8;
    let index: usize = 2 + ((pos - 1) / 8) as usize;
    let old_byte: u8 = buffer[index];
    buffer[index] = old_byte | (1u8 << check_bit);
    assert(buffer@ =~= spec_marked(old(buffer)@, pos));
    Ok(pos)
}

/// A collision note sets the colliding bit and leaves every other bit of the
/// identifier part of the buffer as it was: bits that were known before are
/// never disturbed.
pub proof fn lemma_mark_keeps_other_bits(buffer: Seq<u8>, pos: u8)
    requires
        buffer.len() == 9,
        1 <= pos <= 32,
    ensures
        uid_bit(spec_marked(buffer, pos), pos - 1),
        forall|i: int|
            0 <= i < 32 && i != pos - 1 ==> uid_bit(spec_marked(buffer, pos), i) == uid_bit(
                buffer,
                i,
            ),
        forall|j: int|
            0 <= j < 9 && j != 2 + (pos - 1) / 8 ==> spec_marked(buffer, pos)[j] == buffer[j],
{
    let after = spec_marked(buffer, pos);
    let idx = 2 + (pos - 1) / 8;
    let b: u8 = ((pos - 1) % 8) as u8;
    let x: u8 = buffer[idx];
    assert((x | (1u8 << b)) & (1u8 << b) != 0) by (bit_vector)
        requires
            b < 8,
    ;
    assert forall|i: int| 0 <= i < 32 && i != pos - 1 implies uid_bit(after, i) == uid_bit(
        buffer,
        i,
    ) by {
        if 2 + i / 8 == idx {
            let c: u8 = (i % 8) as u8;
            assert(c != b);
            assert((x | (1u8 << b)) & (1u8 << c) == x & (1u8 << c)) by (bit_vector)
                requires
                    b < 8,
                    c < 8,
                    c != b,
            ;
        }
    }
}

/// A select acknowledge is one status byte and two checksum bytes, all bits
/// valid.
pub open spec fn spec_sak_shape_ok(len: u8, valid_bits: u8) -> bool {
    len == 3 && valid_bits == 0
}

/// Accepts the length and the count of valid bits of a select acknowledge,
/// or refuses them.
pub fn check_sak_shape(len: u8, valid_bits: u8) -> (r: Result<(), PCDErrorCode>)
    ensures
        r is Ok <==> spec_sak_shape_ok(len, valid_bits),
        r is Err ==> r == Err::<(), PCDErrorCode>(PCDErrorCode::InvalidSak),
{
    if len != 3 || valid_bits != 0 {
        Err(PCDErrorCode::InvalidSak)
    } else {
        Ok(())
    }
}

/// An answer to a request is two bytes, all bits valid.
pub open spec fn spec_atqa_shape_ok(len: u8, valid_bits: u8) -> bool {
    len == 2 && valid_bits == 0
}

/// Accepts the length and the count of valid bits of an answer to a
/// request, or refuses them.
pub fn check_atqa_shape(len: u8, valid_bits: u8) -> (r: Result<(), PCDErrorCode>)
    ensures
        r is Ok <==> spec_atqa_shape_ok(len, valid_bits),
        r is Err ==> r == Err::<(), PCDErrorCode>(PCDErrorCode::InvalidAtqa),
{
    if len != 2 || valid_bits != 0 {
        Err(PCDErrorCode::InvalidAtqa)
    } else {
        Ok(())
    }
}

/// Whether the select acknowledge announces a further cascade level.
pub open spec fn spec_sak_incomplete(sak: u8) -> bool {
    sak & 0x04 != 0
}

/// Whether the acknowledge byte carries the cascade bit.
#[verifier::when_used_as_spec(spec_sak_incomplete)]
pub fn sak_incomplete(sak: u8) -> (r: bool)
    ensures
        r == spec_sak_incomplete(sak),
{
    sak & 0x04 != 0
}

/// The number of identifier bytes that a level's buffer holds: three behind
/// a cascade tag, four without one.
pub open spec fn spec_level_bytes(buffer: Seq<u8>) -> int {
    if buffer[2] == PICCCommand::PICC_CMD_CT {
        3
    } else {
        4
    }
}

/// The identifier bytes after those of a level were stored: the level's
/// bytes stand at its offset, the others are as before.
pub open spec fn spec_stored(bytes: Seq<u8>, buffer: Seq<u8>, level: u8) -> Seq<u8> {
    let n = spec_level_bytes(buffer);
    let from = 6 - n;
    let at = spec_uid_offset(level) as int;
    Seq::new(10, |j: int| if at <= j < at + n { buffer[from + (j - at)] } else { bytes[j] })
}

/// Stores the identifier bytes of a finished level in `uid`.
pub fn store_level(uid: &mut Uid, buffer: &[u8], level: u8)
    requires
        buffer@.len() == 9,
        1 <= level <= 3,
    ensures
        final(uid).uid_bytes@ == spec_stored(old(uid).uid_bytes@, buffer@, level),
        final(uid).size == old(uid).size,
        final(uid).sak == old(uid).sak,
{
    let n: usize = if buffer[2] == PICCCommand::PICC_CMD_CT { 3 } else { 4 };
    let from: usize = 6 - n;
    let at: usize = uid_offset(level) as usize;
    let mut i: usize = 0;
    while i < n
        invariant
            i <= n,
            n == spec_level_bytes(buffer@),
            from == 6 - n,
            at == spec_uid_offset(level),
            1 <= level <= 3,
            buffer@.len() == 9,
            uid.size == old(uid).size,
            uid.sak == old(uid).sak,
            forall|j: int|
                0 <= j < 10 ==> uid.uid_bytes@[j] == (if at <= j < at + i {
                    buffer@[from + (j - at)]
                } else {
                    old(uid).uid_bytes@[j]
                }),
        decreases n - i,
    {
        uid.uid_bytes[at + i] = buffer[from + i];
        i += 1;
    }
    assert(uid.uid_bytes@ =~= spec_stored(old(uid).uid_bytes@, buffer@, level));
}

/// The length of an identifier that was completed at `level`.
pub open spec fn spec_uid_size(level: u8) -> u8 {
    (3 * level + 1) as u8
}

/// Copies `n` bytes from `src[from..]` to `dst[at..]`.
pub fn copy_bytes(dst: &mut [u8], at: usize, src: &[u8], from: usize, n: usize)
    requires
        at + n <= old(dst)@.len(),
        from + n <= src@.len(),
    ensures
        final(dst)@.len() == old(dst)@.len(),
        forall|j: int|
            0 <= j < old(dst)@.len() ==> final(dst)@[j] == (if at <= j < at + n {
                src@[from + (j - at)]
            } else {
                old(dst)@[j]
            }),
{
    let dst_len = dst.len();
    let src_len = src.len();
    let mut i: usize = 0;
    while i < n
        invariant
            i <= n,
            at + n <= dst@.len(),
            from + n <= src@.len(),
            dst_len == dst@.len(),
            src_len == src@.len(),
            dst@.len() == old(dst)@.len(),
            forall|j: int|
                0 <= j < dst@.len() ==> dst@[j] == (if at <= j < at + i {
                    src@[from + (j - at)]
                } else {
                    old(dst)@[j]
                }),
        decreases n - i,
    {
        dst[at + i] = src[from + i];
        i += 1;
    }
}

} // verus!
