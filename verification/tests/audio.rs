use sayit::audio::{d_true, header, opus_header};

#[test]
fn opus_header_reads_ogg_and_mp4_byte_order() {
    let mut ogg = [0_u8; 19];
    ogg[..8].copy_from_slice(b"OpusHead");
    ogg[8] = 1;
    ogg[9] = 2;
    ogg[10..12].copy_from_slice(&312_u16.to_le_bytes());
    ogg[16..18].copy_from_slice(&(-256_i16).to_le_bytes());
    let parsed = opus_header(Some(&ogg)).unwrap();
    assert_eq!(parsed.channels, 2);
    assert_eq!(parsed.pre_skip, 312);
    assert_eq!(parsed.output_gain, -256);

    let mut mp4 = ogg;
    mp4[8] = 0;
    mp4[10..12].copy_from_slice(&312_u16.to_be_bytes());
    mp4[16..18].copy_from_slice(&(-256_i16).to_be_bytes());
    let parsed = opus_header(Some(&mp4)).unwrap();
    assert_eq!(parsed.pre_skip, 312);
    assert_eq!(parsed.output_gain, -256);
}

#[test]
fn opus_header_rejects_short_or_foreign_data() {
    assert!(opus_header(None).is_none());
    assert!(opus_header(Some(b"OpusHead")).is_none());
    let mut other = [0_u8; 19];
    other[..8].copy_from_slice(b"OpusTags");
    assert!(opus_header(Some(&other)).is_none());
}

#[test]
fn riff_and_rate_overflow_are_rejected() {
    assert!(header(0, 0).is_err());
    assert!(header(0, u32::MAX).is_err());
    assert!(header(usize::MAX, 48000).is_err());
    assert!(header(u32::MAX as usize / 2, 48000).is_err());
    assert!(header((u32::MAX as usize - 36) / 2, 48000).is_ok());
    assert_eq!(header(0, 0).unwrap_err(), "采样率无效或音频超过 WAV 格式上限");
}

#[test]
fn wav_header_layout() {
    let bytes = header(3, 16_000).unwrap();
    assert_eq!(bytes.len(), 44);
    assert_eq!(&bytes[..4], b"RIFF");
    assert_eq!(u32::from_le_bytes([bytes[4], bytes[5], bytes[6], bytes[7]]), 42);
    assert_eq!(&bytes[8..16], b"WAVEfmt ");
    assert_eq!(u32::from_le_bytes([bytes[16], bytes[17], bytes[18], bytes[19]]), 16);
    assert_eq!(u16::from_le_bytes([bytes[20], bytes[21]]), 1);
    assert_eq!(u16::from_le_bytes([bytes[22], bytes[23]]), 1);
    assert_eq!(u32::from_le_bytes([bytes[24], bytes[25], bytes[26], bytes[27]]), 16_000);
    assert_eq!(u32::from_le_bytes([bytes[28], bytes[29], bytes[30], bytes[31]]), 32_000);
    assert_eq!(u16::from_le_bytes([bytes[32], bytes[33]]), 2);
    assert_eq!(u16::from_le_bytes([bytes[34], bytes[35]]), 16);
    assert_eq!(&bytes[36..40], b"data");
    assert_eq!(u32::from_le_bytes([bytes[40], bytes[41], bytes[42], bytes[43]]), 6);
}

#[test]
fn dsp_switches_default_on() {
    assert!(d_true());
}
