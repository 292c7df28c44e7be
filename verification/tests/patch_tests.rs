use autovideo::marker::find_and_replace_float;
use autovideo::marker::patch_timing_slots;
use autovideo::marker::slot_timing_values;
use autovideo::patch::replace_all_strings_in_bytes;
use autovideo::patch::replace_first_string_in_bytes;

fn occurrences(data: &[u8], pat: &[u8]) -> usize {
    if data.len() < pat.len() {
        return 0;
    }
    (0..=data.len() - pat.len()).filter(|&i| &data[i..i + pat.len()] == pat).count()
}

#[test]
fn replace_all_overwrites_every_occurrence() {
    let mut data: Vec<u8> = b"..TOKEN..TOKEN..".to_vec();
    replace_all_strings_in_bytes(&mut data, "TOKEN", "ab");
    assert_eq!(data, b"..XXXab..XXXab..".to_vec());
}

#[test]
fn replace_all_clears_token_and_keeps_length() {
    let mut data: Vec<u8> = b"aTOKENbbTOKENccTOKEN".to_vec();
    let before = data.len();
    replace_all_strings_in_bytes(&mut data, "TOKEN", "vid");
    assert_eq!(data.len(), before);
    assert_eq!(occurrences(&data, b"TOKEN"), 0);
    assert_eq!(occurrences(&data, b"XXvid"), 3);
}

#[test]
fn replace_all_without_occurrence_is_noop() {
    let mut data: Vec<u8> = b"no placeholder here".to_vec();
    let before = data.clone();
    replace_all_strings_in_bytes(&mut data, "TOKEN", "ab");
    assert_eq!(data, before);
}

#[test]
fn replace_first_only_mutates_first_occurrence() {
    let mut data: Vec<u8> = b"..TOKEN....TOKEN..".to_vec();
    replace_first_string_in_bytes(&mut data, "TOKEN", "ab");
    assert_eq!(&data[2..7], b"XXXab");
    assert_eq!(&data[11..16], b"TOKEN");
    assert_eq!(&data[0..2], b"..");
    assert_eq!(&data[7..11], b"....");
    assert_eq!(&data[16..], b"..");
}

#[test]
fn replace_first_without_occurrence_is_noop() {
    let mut data: Vec<u8> = b"nothing to patch".to_vec();
    let before = data.clone();
    replace_first_string_in_bytes(&mut data, "TOKEN", "ab");
    assert_eq!(data, before);
}

#[test]
fn float_replace_hits_every_unaligned_offset() {
    let target = 1.5f32;
    let replacement = 2.5f32;
    let mut data: Vec<u8> = vec![0x01, 0x02, 0x03];
    data.extend_from_slice(&target.to_le_bytes());
    data.extend_from_slice(&[0x04]);
    data.extend_from_slice(&target.to_le_bytes());
    find_and_replace_float(&mut data, target.to_bits(), replacement.to_bits());
    assert_eq!(&data[0..3], &[0x01, 0x02, 0x03]);
    assert_eq!(&data[3..7], &replacement.to_le_bytes());
    assert_eq!(data[7], 0x04);
    assert_eq!(&data[8..12], &replacement.to_le_bytes());
}

#[test]
fn float_replace_checks_the_final_window() {
    let target = 3.25f32;
    let mut data: Vec<u8> = target.to_le_bytes().to_vec();
    find_and_replace_float(&mut data, target.to_bits(), 7.0f32.to_bits());
    assert_eq!(data, 7.0f32.to_le_bytes().to_vec());
}

#[test]
fn float_replace_on_short_buffer_is_noop() {
    let mut data: Vec<u8> = vec![0x01, 0x02, 0x03];
    let before = data.clone();
    find_and_replace_float(&mut data, 1.0f32.to_bits(), 2.0f32.to_bits());
    assert_eq!(data, before);
}

#[test]
fn float_replace_uses_float_equality_for_zeroes() {
    // +0.0 and -0.0 differ in bits but compare equal as floats, so a
    // +0.0 window is a hit for a -0.0 target.
    let mut data: Vec<u8> = 0.0f32.to_le_bytes().to_vec();
    find_and_replace_float(&mut data, (-0.0f32).to_bits(), 7.0f32.to_bits());
    assert_eq!(data, 7.0f32.to_le_bytes().to_vec());
}

#[test]
fn float_replace_round_trip_restores_buffer() {
    let t = 100.5f32;
    let r = 0.9f32;
    let mut data: Vec<u8> = vec![0x10, 0x20, 0x30];
    data.extend_from_slice(&t.to_le_bytes());
    data.extend_from_slice(&[0x40, 0x50, 0x60, 0x70, 0x80]);
    let before = data.clone();
    find_and_replace_float(&mut data, t.to_bits(), r.to_bits());
    assert_ne!(data, before);
    find_and_replace_float(&mut data, r.to_bits(), t.to_bits());
    assert_eq!(data, before);
}

#[test]
fn float_replace_round_trip_restores_repeated_sentinels() {
    let t = 100.5f32;
    let r = 0.9f32;
    let mut data: Vec<u8> = Vec::new();
    data.extend_from_slice(&t.to_le_bytes());
    data.extend_from_slice(&[0x11, 0x22, 0x33, 0x44, 0x55]);
    data.extend_from_slice(&t.to_le_bytes());
    data.extend_from_slice(&[0x66]);
    let before = data.clone();
    find_and_replace_float(&mut data, t.to_bits(), r.to_bits());
    assert_eq!(&data[0..4], &r.to_le_bytes());
    assert_eq!(&data[9..13], &r.to_le_bytes());
    find_and_replace_float(&mut data, r.to_bits(), t.to_bits());
    assert_eq!(data, before);
}

#[test]
fn single_atlas_sets_first_slot_to_hold_and_rest_to_zero() {
    let hold = 0.9f32;
    let full = 25.6f32;
    let sentinels: Vec<u32> = (0..24).map(|k| (100.5f32 + k as f32).to_bits()).collect();
    let values = slot_timing_values(1, hold.to_bits(), full.to_bits());
    assert_eq!(values.len(), 24);
    assert_eq!(values[0], hold.to_bits());
    for k in 1..24 {
        assert_eq!(values[k], 0.0f32.to_bits());
    }

    // A template holding the slot-1 sentinel at offset 0 and the slot-2
    // sentinel at offset 8.
    let mut template: Vec<u8> = Vec::new();
    template.extend_from_slice(&100.5f32.to_le_bytes());
    template.extend_from_slice(&[0xAA, 0xBB, 0xCC, 0xDD]);
    template.extend_from_slice(&101.5f32.to_le_bytes());
    let before_len = template.len();

    patch_timing_slots(&mut template, &sentinels, &values);

    assert_eq!(template.len(), before_len);
    assert_eq!(&template[0..4], &hold.to_le_bytes());
    assert_eq!(&template[4..8], &[0xAA, 0xBB, 0xCC, 0xDD]);
    assert_eq!(&template[8..12], &0.0f32.to_le_bytes());
}

#[test]
fn multi_atlas_slot_values() {
    let hold = 4.4f32;
    let full = 25.6f32;
    let values = slot_timing_values(3, hold.to_bits(), full.to_bits());
    assert_eq!(values[0], full.to_bits());
    assert_eq!(values[1], full.to_bits());
    assert_eq!(values[2], hold.to_bits());
    for k in 3..24 {
        assert_eq!(values[k], 0.0f32.to_bits());
    }
}
