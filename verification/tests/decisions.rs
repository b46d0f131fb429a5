use mfrc522_driver::anticoll::{
    check_atqa_shape, check_sak_shape, collision_position, copy_bytes, frame_plan,
    level_known_bits, mark_collision, sak_incomplete, seal_frame, select_code, store_level,
    uid_offset, uses_cascade_tag, FramePlan,
};
use mfrc522_driver::consts::{ErrorClass, PCDErrorCode, Uid, UidSize};
use mfrc522_driver::picc::halt_result;

#[test]
fn select_codes_of_the_three_levels() {
    assert_eq!(select_code(1), Some(0x93));
    assert_eq!(select_code(2), Some(0x95));
    assert_eq!(select_code(3), Some(0x97));
    assert_eq!(select_code(0), None);
    assert_eq!(select_code(4), None);
}

#[test]
fn identifier_offsets_of_the_three_levels() {
    assert_eq!(uid_offset(1), 0);
    assert_eq!(uid_offset(2), 3);
    assert_eq!(uid_offset(3), 6);
}

#[test]
fn cascade_tag_only_with_known_bits_and_more_bytes() {
    assert!(!uses_cascade_tag(1, 0, 7));
    assert!(!uses_cascade_tag(1, 8, 4));
    assert!(uses_cascade_tag(1, 8, 7));
    assert!(uses_cascade_tag(1, 8, 10));
    assert!(!uses_cascade_tag(2, 8, 7));
    assert!(uses_cascade_tag(2, 8, 10));
    assert!(!uses_cascade_tag(3, 80, 10));
}

#[test]
fn known_bits_at_the_start_of_a_level() {
    assert_eq!(level_known_bits(0, 1, false), 0);
    assert_eq!(level_known_bits(13, 1, false), 13);
    assert_eq!(level_known_bits(13, 1, true), 21);
    assert_eq!(level_known_bits(13, 2, false), 0);
    assert_eq!(level_known_bits(24, 2, false), 0);
    assert_eq!(level_known_bits(30, 2, true), 14);
    assert_eq!(level_known_bits(47, 3, false), 0);
    assert_eq!(level_known_bits(60, 3, false), 12);
    assert_eq!(level_known_bits(80, 1, true), 88);
    assert_eq!(level_known_bits(80, 3, false), 32);
}

#[test]
fn frame_plan_of_a_partial_frame() {
    assert_eq!(frame_plan(0), FramePlan { tx_last_bits: 0, index: 2, send_len: 2, capacity: 7 });
    assert_eq!(frame_plan(1), FramePlan { tx_last_bits: 1, index: 2, send_len: 3, capacity: 7 });
    assert_eq!(frame_plan(8), FramePlan { tx_last_bits: 0, index: 3, send_len: 3, capacity: 6 });
    assert_eq!(frame_plan(11), FramePlan { tx_last_bits: 3, index: 3, send_len: 4, capacity: 6 });
    assert_eq!(frame_plan(31), FramePlan { tx_last_bits: 7, index: 5, send_len: 6, capacity: 4 });
}

#[test]
fn frame_plan_of_the_full_select_frame() {
    let full = FramePlan { tx_last_bits: 0, index: 6, send_len: 9, capacity: 3 };
    assert_eq!(frame_plan(32), full);
    assert_eq!(frame_plan(40), full);
    assert_eq!(frame_plan(88), full);
}

#[test]
fn sealing_sets_the_count_of_valid_bits() {
    for (known, nvb) in [(0u8, 0x20u8), (1, 0x21), (7, 0x27), (8, 0x30), (11, 0x33), (31, 0x57)] {
        let mut buffer = [0x93u8, 0, 0xDE, 0xAD, 0xBE, 0xEF, 0x11, 0x22, 0x33];
        seal_frame(&mut buffer, known);
        assert_eq!(buffer, [0x93, nvb, 0xDE, 0xAD, 0xBE, 0xEF, 0x11, 0x22, 0x33]);
    }
}

#[test]
fn sealing_the_full_frame_sets_the_check_byte() {
    let mut buffer = [0x93u8, 0, 0xDE, 0xAD, 0xBE, 0xEF, 0x00, 0x22, 0x33];
    seal_frame(&mut buffer, 32);
    assert_eq!(buffer, [0x93, 0x70, 0xDE, 0xAD, 0xBE, 0xEF, 0x22, 0x22, 0x33]);
    assert_eq!(buffer[6], buffer[2] ^ buffer[3] ^ buffer[4] ^ buffer[5]);
}

#[test]
fn collision_position_from_the_register() {
    assert_eq!(collision_position(0x01), Ok(1));
    assert_eq!(collision_position(0x1F), Ok(31));
    assert_eq!(collision_position(0x00), Ok(32));
    assert_eq!(collision_position(0x80), Ok(32));
    assert_eq!(collision_position(0xC5), Ok(5));
    assert_eq!(collision_position(0x20), Err(PCDErrorCode::InvalidCollisionPosition));
    assert_eq!(collision_position(0x3F), Err(PCDErrorCode::InvalidCollisionPosition));
}

#[test]
fn marking_sets_the_colliding_bit_only() {
    for pos in 1..=32u8 {
        let mut buffer = [0x93u8, 0x20, 0, 0, 0, 0, 0, 0, 0];
        assert_eq!(mark_collision(&mut buffer, 0, pos), Ok(pos));
        let mut expected = [0x93u8, 0x20, 0, 0, 0, 0, 0, 0, 0];
        expected[2 + ((pos - 1) / 8) as usize] = 1 << ((pos - 1) % 8);
        assert_eq!(buffer, expected);
    }
    let mut buffer = [0x93u8, 0x20, 0x5A, 0xFF, 0x00, 0x81, 0x07, 0x08, 0x09];
    assert_eq!(mark_collision(&mut buffer, 10, 11), Ok(11));
    assert_eq!(buffer, [0x93, 0x20, 0x5A, 0xFF, 0x00, 0x81, 0x07, 0x08, 0x09]);
    assert_eq!(mark_collision(&mut buffer, 11, 18), Ok(18));
    assert_eq!(buffer, [0x93, 0x20, 0x5A, 0xFF, 0x02, 0x81, 0x07, 0x08, 0x09]);
}

#[test]
fn marking_refuses_a_collision_among_known_bits() {
    let mut buffer = [0x93u8, 0x20, 0, 0, 0, 0, 0, 0, 0];
    assert_eq!(mark_collision(&mut buffer, 12, 12), Err(PCDErrorCode::ProtocolInconsistency));
    assert_eq!(mark_collision(&mut buffer, 12, 3), Err(PCDErrorCode::ProtocolInconsistency));
    assert_eq!(mark_collision(&mut buffer, 32, 32), Err(PCDErrorCode::ProtocolInconsistency));
    assert_eq!(mark_collision(&mut buffer, 88, 32), Err(PCDErrorCode::ProtocolInconsistency));
    assert_eq!(buffer, [0x93, 0x20, 0, 0, 0, 0, 0, 0, 0]);
}

#[test]
fn shape_of_a_select_acknowledge() {
    assert_eq!(check_sak_shape(3, 0), Ok(()));
    assert_eq!(check_sak_shape(2, 0), Err(PCDErrorCode::InvalidSak));
    assert_eq!(check_sak_shape(4, 0), Err(PCDErrorCode::InvalidSak));
    assert_eq!(check_sak_shape(3, 1), Err(PCDErrorCode::InvalidSak));
    assert_eq!(check_sak_shape(0, 0), Err(PCDErrorCode::InvalidSak));
}

#[test]
fn shape_of_an_answer_to_request() {
    assert_eq!(check_atqa_shape(2, 0), Ok(()));
    assert_eq!(check_atqa_shape(1, 0), Err(PCDErrorCode::InvalidAtqa));
    assert_eq!(check_atqa_shape(3, 0), Err(PCDErrorCode::InvalidAtqa));
    assert_eq!(check_atqa_shape(2, 7), Err(PCDErrorCode::InvalidAtqa));
    assert_eq!(check_atqa_shape(0, 0), Err(PCDErrorCode::InvalidAtqa));
}

#[test]
fn cascade_bit_of_the_acknowledge() {
    assert!(sak_incomplete(0x04));
    assert!(sak_incomplete(0x24));
    assert!(!sak_incomplete(0x08));
    assert!(!sak_incomplete(0x00));
    assert!(!sak_incomplete(0xFB));
}

#[test]
fn storing_a_level_without_cascade_tag() {
    let mut uid = Uid { size: 4, sak: 0x11, uid_bytes: [9; 10] };
    store_level(&mut uid, &[0x93, 0x70, 1, 2, 3, 4, 4, 0, 0], 1);
    assert_eq!(uid.uid_bytes, [1, 2, 3, 4, 9, 9, 9, 9, 9, 9]);
    assert_eq!(uid.size, 4);
    assert_eq!(uid.sak, 0x11);
    store_level(&mut uid, &[0x95, 0x70, 5, 6, 7, 8, 12, 0, 0], 2);
    assert_eq!(uid.uid_bytes, [1, 2, 3, 5, 6, 7, 8, 9, 9, 9]);
    store_level(&mut uid, &[0x97, 0x70, 21, 22, 23, 24, 0, 0, 0], 3);
    assert_eq!(uid.uid_bytes, [1, 2, 3, 5, 6, 7, 21, 22, 23, 24]);
}

#[test]
fn storing_a_level_behind_a_cascade_tag() {
    let mut uid = Uid { size: 7, sak: 0, uid_bytes: [0; 10] };
    store_level(&mut uid, &[0x93, 0x70, 0x88, 1, 2, 3, 0, 0, 0], 1);
    assert_eq!(uid.uid_bytes, [1, 2, 3, 0, 0, 0, 0, 0, 0, 0]);
    store_level(&mut uid, &[0x95, 0x70, 0x88, 4, 5, 6, 0, 0, 0], 2);
    assert_eq!(uid.uid_bytes, [1, 2, 3, 4, 5, 6, 0, 0, 0, 0]);
    store_level(&mut uid, &[0x97, 0x70, 0x88, 7, 8, 9, 0, 0, 0], 3);
    assert_eq!(uid.uid_bytes, [1, 2, 3, 4, 5, 6, 7, 8, 9, 0]);
}

#[test]
fn copying_bytes_into_place() {
    let mut dst = [0u8; 6];
    copy_bytes(&mut dst, 2, &[1, 2, 3, 4, 5], 1, 3);
    assert_eq!(dst, [0, 0, 2, 3, 4, 0]);
    copy_bytes(&mut dst, 0, &[7], 0, 0);
    assert_eq!(dst, [0, 0, 2, 3, 4, 0]);
}

#[test]
fn halt_succeeds_only_on_a_timeout() {
    assert_eq!(halt_result(Err(PCDErrorCode::Timeout)), Ok(()));
    assert_eq!(halt_result(Ok(false)), Err(PCDErrorCode::Protocol));
    assert_eq!(halt_result(Ok(true)), Err(PCDErrorCode::Protocol));
    assert_eq!(halt_result(Err(PCDErrorCode::Transport)), Err(PCDErrorCode::Transport));
    assert_eq!(halt_result(Err(PCDErrorCode::Protocol)), Err(PCDErrorCode::Protocol));
}

#[test]
fn classes_of_the_error_codes() {
    assert_eq!(PCDErrorCode::Transport.class(), ErrorClass::TransportError);
    assert_eq!(PCDErrorCode::Timeout.class(), ErrorClass::Timeout);
    assert_eq!(PCDErrorCode::Protocol.class(), ErrorClass::ProtocolError);
    assert_eq!(PCDErrorCode::InvalidCollisionPosition.class(), ErrorClass::CollisionError);
    assert_eq!(PCDErrorCode::ProtocolInconsistency.class(), ErrorClass::CollisionError);
    assert_eq!(PCDErrorCode::CrcMismatch.class(), ErrorClass::CrcMismatch);
    assert_eq!(PCDErrorCode::Overflow.class(), ErrorClass::Overflow);
    assert_eq!(PCDErrorCode::InvalidSak.class(), ErrorClass::Malformed);
    assert_eq!(PCDErrorCode::InvalidAtqa.class(), ErrorClass::Malformed);
    assert_eq!(PCDErrorCode::TooManyCascadeLevels.class(), ErrorClass::Malformed);
    assert_eq!(PCDErrorCode::BitsExceeded.class(), ErrorClass::Malformed);
}

#[test]
fn identifier_lengths() {
    assert_eq!(UidSize::Four.to_byte(), 4);
    assert_eq!(UidSize::Seven.to_byte(), 7);
    assert_eq!(UidSize::Ten.to_byte(), 10);
}
