use stateless_history_node::sound::{mono16_wav, samples_to_bytes};

#[test]
fn samples_are_little_endian_pairs() {
    assert_eq!(samples_to_bytes(&[1, -1, 256, -1600]), vec![1, 0, 255, 255, 0, 1, 0xc0, 0xf9]);
    assert!(samples_to_bytes(&[]).is_empty());
}

#[test]
fn wav_header_describes_mono_pcm() {
    let data = samples_to_bytes(&[1600, -1600]);
    let wav = mono16_wav(44100, &data);
    assert_eq!(wav.len(), 44 + 4);
    assert_eq!(&wav[0..4], b"RIFF");
    assert_eq!(&wav[4..8], &40u32.to_le_bytes());
    assert_eq!(&wav[8..12], b"WAVE");
    assert_eq!(&wav[12..16], b"fmt ");
    assert_eq!(&wav[16..20], &16u32.to_le_bytes());
    assert_eq!(&wav[20..22], &1u16.to_le_bytes());
    assert_eq!(&wav[22..24], &1u16.to_le_bytes());
    assert_eq!(&wav[24..28], &44100u32.to_le_bytes());
    assert_eq!(&wav[28..32], &88200u32.to_le_bytes());
    assert_eq!(&wav[32..34], &2u16.to_le_bytes());
    assert_eq!(&wav[34..36], &16u16.to_le_bytes());
    assert_eq!(&wav[36..40], b"data");
    assert_eq!(&wav[40..44], &4u32.to_le_bytes());
    assert_eq!(&wav[44..], &data[..]);
}

#[test]
fn empty_wav_is_just_the_header() {
    let wav = mono16_wav(8000, &[]);
    assert_eq!(wav.len(), 44);
    assert_eq!(&wav[4..8], &36u32.to_le_bytes());
    assert_eq!(&wav[40..44], &0u32.to_le_bytes());
}
