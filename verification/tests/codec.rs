//! The chunk codec: round trips in both encodings, and each decode
//! error on its own input.

use zettacore::chunk::chunk_from_raw;
use zettacore::chunk::chunk_to_raw;
use zettacore::chunk::ChunkError;
use zettacore::chunk::EncodeType;

#[test]
fn chunk_round_trip_bincode_plain() {
    let payload: Vec<u8> = (0u8..200).collect();
    let raw = chunk_to_raw(EncodeType::Bincode, &payload, 512).unwrap();
    assert_eq!(raw.len() % 512, 0);
    let (decoded, enc, consumed) = chunk_from_raw(&raw, 512).unwrap();
    assert_eq!(decoded, payload);
    assert_eq!(enc, EncodeType::Bincode);
    assert_eq!(consumed, raw.len());
}

#[test]
fn chunk_round_trip_json_lz4() {
    let payload: Vec<u8> = vec![7u8; 4096];
    let raw = chunk_to_raw(EncodeType::Json, &payload, 512).unwrap();
    assert_eq!(raw.len() % 512, 0);
    let (decoded, enc, consumed) = chunk_from_raw(&raw, 512).unwrap();
    assert_eq!(decoded, payload);
    assert_eq!(enc, EncodeType::Json);
    assert_eq!(consumed, raw.len());
}

#[test]
fn chunk_round_trip_empty_payload() {
    let payload: Vec<u8> = Vec::new();
    let raw = chunk_to_raw(EncodeType::Bincode, &payload, 512).unwrap();
    let (decoded, _, _) = chunk_from_raw(&raw, 512).unwrap();
    assert_eq!(decoded, payload);
}

#[test]
fn chunk_corrupt_payload_byte_fails_checksum() {
    let payload: Vec<u8> = (0u8..100).collect();
    let mut raw = chunk_to_raw(EncodeType::Bincode, &payload, 512).unwrap();
    // flip one payload byte: the stored checksum no longer matches
    let nul = raw.iter().position(|&c| c == 0).unwrap();
    raw[nul + 10] ^= 0xff;
    assert_eq!(chunk_from_raw(&raw, 512), Err(ChunkError::Checksum));
}

#[test]
fn chunk_garbage_is_malformed() {
    let raw: Vec<u8> = vec![0xabu8; 64];
    assert_eq!(chunk_from_raw(&raw, 512), Err(ChunkError::Malformed));
}

#[test]
fn chunk_truncated_payload_is_malformed() {
    let payload: Vec<u8> = vec![1u8; 600];
    let raw = chunk_to_raw(EncodeType::Bincode, &payload, 512).unwrap();
    let truncated: Vec<u8> = raw[..512].to_vec();
    assert_eq!(chunk_from_raw(&truncated, 512), Err(ChunkError::Malformed));
}

#[test]
fn chunk_undecompressible_payload() {
    // a frame that claims LZ4 compression over bytes that are no LZ4
    // stream, with a checksum that does match those bytes
    let data = b"not an lz4 stream at all";
    let sum = seahash::hash(data);
    let mut raw: Vec<u8> = Vec::new();
    let header = format!(
        "{{\"payload_size\":{},\"encoding\":\"Json\",\"compression\":\"Lz4\",\"checksum\":{}}}",
        data.len(),
        sum
    );
    raw.extend_from_slice(header.as_bytes());
    raw.push(0);
    raw.extend_from_slice(data);
    while raw.len() % 512 != 0 {
        raw.push(0);
    }
    assert_eq!(chunk_from_raw(&raw, 512), Err(ChunkError::Decompress));
}

#[test]
fn chunk_header_matches_expected_text() {
    let payload: Vec<u8> = vec![9u8; 10];
    let raw = chunk_to_raw(EncodeType::Bincode, &payload, 512).unwrap();
    let nul = raw.iter().position(|&c| c == 0).unwrap();
    let header = std::str::from_utf8(&raw[..nul]).unwrap();
    let sum = seahash::hash(&payload);
    let expected = format!(
        "{{\"payload_size\":10,\"encoding\":\"Bincode\",\"compression\":\"None\",\"checksum\":{}}}",
        sum
    );
    assert_eq!(header, expected);
}
