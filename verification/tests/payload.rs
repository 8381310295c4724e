use watermark_core::payload::{
    bits_to_bytes, bytes_to_bits, majority_decode, repeat_bits, PAYLOAD_BITS, PAYLOAD_BYTES,
};
use watermark_core::{PayloadError, WatermarkPayload};

fn confidence(agreement: &[usize], repetitions: usize) -> f32 {
    let mut confidence_sum = 0.0_f32;
    for agreed in agreement {
        confidence_sum += (*agreed as f32) / (repetitions as f32);
    }
    if agreement.is_empty() {
        0.0
    } else {
        confidence_sum / (agreement.len() as f32)
    }
}

#[test]
fn payload_round_trip() {
    let payload = WatermarkPayload::generate();
    let bits = payload.to_bits();
    let decoded = WatermarkPayload::from_bits(&bits).unwrap();
    assert_eq!(payload, decoded);
}

#[test]
fn repeated_bits_majority_decode() {
    let payload = WatermarkPayload::generate();
    let mut repeated = repeat_bits(&payload.to_bits(), 5);
    repeated[0] = !repeated[0];
    repeated[7] = !repeated[7];
    let (decoded_bits, agreement) = majority_decode(&repeated, 5);
    let confidence = confidence(&agreement, 5);
    let decoded = WatermarkPayload::from_bits(&decoded_bits).unwrap();
    assert_eq!(payload.watermark_id, decoded.watermark_id);
    assert!(confidence > 0.8);
}

#[test]
fn generated_identifier_is_random_uuid() {
    let payload = WatermarkPayload::generate();
    assert_eq!(payload.version, 1);
    assert_eq!(payload.watermark_id[6] >> 4, 4);
    assert_eq!(payload.watermark_id[8] >> 6, 2);
    assert_ne!(payload.watermark_id, WatermarkPayload::generate().watermark_id);
}

#[test]
fn checksum_is_crc32_of_version_and_id() {
    let id: [u8; 16] = core::array::from_fn(|i| i as u8);
    let payload = WatermarkPayload::new(id);
    assert_eq!(payload.version, 1);
    assert_eq!(payload.watermark_id, id);
    assert_eq!(payload.checksum, 0x6c3c_9323);
    let zero = WatermarkPayload::new([0u8; 16]);
    assert_eq!(zero.checksum, 0x4e49_3afe);
}

#[test]
fn payload_bytes_layout() {
    let id: [u8; 16] = core::array::from_fn(|i| i as u8);
    let bytes = WatermarkPayload::new(id).to_bytes();
    assert_eq!(bytes.len(), PAYLOAD_BYTES);
    assert_eq!(bytes[0], 1);
    assert_eq!(&bytes[1..17], &id);
    assert_eq!(&bytes[17..21], &[0x6c, 0x3c, 0x93, 0x23]);
    let decoded = WatermarkPayload::from_bytes(&bytes).unwrap();
    assert_eq!(decoded.watermark_id, id);
    assert_eq!(WatermarkPayload::new(id).to_bits().len(), PAYLOAD_BITS);
}

#[test]
fn from_bytes_rejects_wrong_length() {
    let err = WatermarkPayload::from_bytes(&[1, 2, 3]).unwrap_err();
    assert_eq!(err, PayloadError::InvalidLength { expected: 21, actual: 3 });
}

#[test]
fn from_bytes_rejects_unknown_version() {
    let mut bytes = WatermarkPayload::new([7u8; 16]).to_bytes();
    bytes[0] = 2;
    assert_eq!(WatermarkPayload::from_bytes(&bytes).unwrap_err(), PayloadError::UnsupportedVersion(2));
}

#[test]
fn from_bytes_rejects_bad_checksum() {
    let mut bytes = WatermarkPayload::new([7u8; 16]).to_bytes();
    bytes[5] ^= 0x10;
    assert_eq!(WatermarkPayload::from_bytes(&bytes).unwrap_err(), PayloadError::ChecksumMismatch);
    let mut bytes = WatermarkPayload::new([7u8; 16]).to_bytes();
    bytes[20] ^= 0x01;
    assert_eq!(WatermarkPayload::from_bytes(&bytes).unwrap_err(), PayloadError::ChecksumMismatch);
}

#[test]
fn bits_are_most_significant_first() {
    assert_eq!(
        bytes_to_bits(&[0b1010_0001]),
        vec![true, false, true, false, false, false, false, true]
    );
    assert_eq!(bits_to_bytes(&[true, false, true, false, false, false, false, true]), vec![0b1010_0001]);
}

#[test]
fn short_bit_group_fills_high_bits() {
    assert_eq!(bits_to_bytes(&[true, true, false, true]), vec![0b1101_0000]);
    assert_eq!(bits_to_bytes(&[false; 9]), vec![0, 0]);
    assert_eq!(bits_to_bytes(&[]), Vec::<u8>::new());
}

#[test]
fn bytes_survive_bits_round_trip() {
    let bytes: Vec<u8> = (0..=255).collect();
    assert_eq!(bits_to_bytes(&bytes_to_bits(&bytes)), bytes);
}

#[test]
fn repeat_bits_repeats_in_place() {
    assert_eq!(repeat_bits(&[true, false], 3), vec![true, true, true, false, false, false]);
    assert_eq!(repeat_bits(&[true, false], 0), Vec::<bool>::new());
}

#[test]
fn majority_decode_counts_agreement() {
    let bits = [true, true, false, false, false, true, true];
    let (decoded, agreement) = majority_decode(&bits, 3);
    assert_eq!(decoded, vec![true, false]);
    assert_eq!(agreement, vec![2, 2]);
}

#[test]
fn majority_decode_tie_votes_true() {
    let (decoded, agreement) = majority_decode(&[true, false, false, true], 2);
    assert_eq!(decoded, vec![true, true]);
    assert_eq!(agreement, vec![1, 1]);
}

#[test]
fn clean_repetition_has_full_confidence() {
    let payload = WatermarkPayload::new([0x5a; 16]);
    let repeated = repeat_bits(&payload.to_bits(), 7);
    let (decoded, agreement) = majority_decode(&repeated, 7);
    assert!(agreement.iter().all(|a| *a == 7));
    assert_eq!(confidence(&agreement, 7), 1.0);
    assert_eq!(WatermarkPayload::from_bits(&decoded).unwrap(), payload);
}

#[test]
fn majority_corrects_up_to_half_minus_one_per_group() {
    let payload = WatermarkPayload::new([0xc3; 16]);
    let mut repeated = repeat_bits(&payload.to_bits(), 5);
    for group in 0..PAYLOAD_BITS {
        repeated[group * 5] = !repeated[group * 5];
        repeated[group * 5 + 3] = !repeated[group * 5 + 3];
    }
    let (decoded, _) = majority_decode(&repeated, 5);
    assert_eq!(WatermarkPayload::from_bits(&decoded).unwrap(), payload);
    repeated[1] = !repeated[1];
    let (decoded, _) = majority_decode(&repeated, 5);
    assert!(WatermarkPayload::from_bits(&decoded).is_err());
}

#[test]
fn every_single_bit_corruption_is_rejected() {
    let payload = WatermarkPayload::new(core::array::from_fn(|i| (i * 37) as u8));
    let bytes = payload.to_bytes();
    for k in 0..PAYLOAD_BYTES {
        for bit in 0..8 {
            let mut corrupted = bytes;
            corrupted[k] ^= 1 << bit;
            let expected = if k == 0 {
                PayloadError::UnsupportedVersion(corrupted[0])
            } else {
                PayloadError::ChecksumMismatch
            };
            assert_eq!(WatermarkPayload::from_bytes(&corrupted).unwrap_err(), expected);
        }
    }
}

#[test]
fn any_single_byte_corruption_is_rejected() {
    let bytes = WatermarkPayload::new([0xa5; 16]).to_bytes();
    for k in 1..PAYLOAD_BYTES {
        for v in [0u8, 0xff, 0x5a, 0xa4] {
            if v == bytes[k] {
                continue;
            }
            let mut corrupted = bytes;
            corrupted[k] = v;
            assert_eq!(WatermarkPayload::from_bytes(&corrupted).unwrap_err(), PayloadError::ChecksumMismatch);
        }
    }
}

#[test]
fn payload_error_messages() {
    assert_eq!(
        PayloadError::InvalidLength { expected: 21, actual: 3 }.message(),
        "payload must contain 21 bytes, got 3"
    );
    assert_eq!(
        PayloadError::InvalidLength { expected: 21, actual: 1000 }.message(),
        "payload must contain 21 bytes, got 1000"
    );
    assert_eq!(PayloadError::UnsupportedVersion(0).message(), "unsupported payload version 0");
    assert_eq!(PayloadError::UnsupportedVersion(255).message(), "unsupported payload version 255");
    assert_eq!(PayloadError::ChecksumMismatch.message(), "payload checksum mismatch");
}

#[test]
fn bits_round_trip_through_bytes() {
    let bits: Vec<bool> = (0..24).map(|i| i % 3 == 0).collect();
    assert_eq!(bytes_to_bits(&bits_to_bytes(&bits)), bits);
}
