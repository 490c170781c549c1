use termkrush::wav::wav_header;

#[test]
fn writes_a_readable_wav_header() {
    // 100 stereo frames.
    let bytes = wav_header(200, 44_100, 2);
    assert_eq!(&bytes[0..4], b"RIFF");
    assert_eq!(&bytes[8..12], b"WAVE");
    // data chunk = 200 samples × 2 bytes.
    let data_len = u32::from_le_bytes([bytes[40], bytes[41], bytes[42], bytes[43]]);
    assert_eq!(data_len, 400);
    assert_eq!(bytes.len(), 44, "the header alone; the PCM data follows it");
}

#[test]
fn header_fields_are_little_endian() {
    let h = wav_header(4, 44_100, 2);
    let mut want: Vec<u8> = Vec::new();
    want.extend_from_slice(b"RIFF");
    want.extend_from_slice(&44u32.to_le_bytes());
    want.extend_from_slice(b"WAVE");
    want.extend_from_slice(b"fmt ");
    want.extend_from_slice(&16u32.to_le_bytes());
    want.extend_from_slice(&1u16.to_le_bytes());
    want.extend_from_slice(&2u16.to_le_bytes());
    want.extend_from_slice(&44_100u32.to_le_bytes());
    want.extend_from_slice(&176_400u32.to_le_bytes());
    want.extend_from_slice(&4u16.to_le_bytes());
    want.extend_from_slice(&16u16.to_le_bytes());
    want.extend_from_slice(b"data");
    want.extend_from_slice(&8u32.to_le_bytes());
    assert_eq!(h, want);
}

#[test]
fn zero_channels_count_as_mono() {
    let h = wav_header(10, 8_000, 0);
    assert_eq!(u16::from_le_bytes([h[22], h[23]]), 1, "channels");
    assert_eq!(u32::from_le_bytes([h[28], h[29], h[30], h[31]]), 16_000, "byte rate");
    assert_eq!(u16::from_le_bytes([h[32], h[33]]), 2, "block align");
}
