use ragent::wav::pcm16_wav;

#[test]
fn wav_header_and_samples() {
    let w = pcm16_wav(&vec![1i16, -1, 32767, -32768]);
    assert_eq!(w.len(), 44 + 8);
    assert_eq!(&w[0..4], b"RIFF");
    assert_eq!(&w[4..8], &(8u32 + 36).to_le_bytes());
    assert_eq!(&w[8..16], b"WAVEfmt ");
    assert_eq!(&w[16..20], &16u32.to_le_bytes());
    assert_eq!(&w[20..22], &1u16.to_le_bytes());
    assert_eq!(&w[22..24], &1u16.to_le_bytes());
    assert_eq!(&w[24..28], &16000u32.to_le_bytes());
    assert_eq!(&w[28..32], &32000u32.to_le_bytes());
    assert_eq!(&w[32..34], &2u16.to_le_bytes());
    assert_eq!(&w[34..36], &16u16.to_le_bytes());
    assert_eq!(&w[36..40], b"data");
    assert_eq!(&w[40..44], &8u32.to_le_bytes());
    assert_eq!(&w[44..], &[1, 0, 255, 255, 255, 127, 0, 128]);
}

#[test]
fn empty_wav_is_just_a_header() {
    let w = pcm16_wav(&vec![]);
    assert_eq!(w.len(), 44);
    assert_eq!(&w[40..44], &[0, 0, 0, 0]);
}

#[test]
fn wav_samples_read_back() {
    let samples = vec![0i16, 1, -1, 12345, -12345, i16::MAX, i16::MIN];
    let w = pcm16_wav(&samples);
    let back: Vec<i16> = w[44..]
        .chunks_exact(2)
        .map(|b| ragent::timeline::le_i16(b[0], b[1]))
        .collect();
    assert_eq!(back, samples);
}
