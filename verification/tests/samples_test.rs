use vchat::samples::{
    decode_samples, encode_sample_packets, origin_i32, origin_u16, origin_u32, origin_u64,
    origin_u8, DeviceType, SampleFormat, SAMPLES_PER_PACKET,
};
use vchat::traits::CopyFromIterator;

#[test]
fn samples_per_packet_fills_the_payload() {
    assert_eq!(SAMPLES_PER_PACKET, 124);
}

#[test]
fn encode_splits_into_packets_of_124_samples() {
    let samples: Vec<u32> = (0..250u32).collect();
    let packets = encode_sample_packets(&samples);
    assert_eq!(packets.len(), 3);
    assert_eq!(packets[0].len(), 496);
    assert_eq!(packets[1].len(), 496);
    assert_eq!(packets[2].len(), 8);
    assert_eq!(&packets[2][..], &[0, 0, 0, 248, 0, 0, 0, 249]);
}

#[test]
fn encode_is_big_endian() {
    let packets = encode_sample_packets(&[0x3f80_0000, 0x0102_0304]);
    assert_eq!(packets, vec![vec![0x3f, 0x80, 0, 0, 1, 2, 3, 4]]);
}

#[test]
fn encode_nothing_gives_no_packet() {
    assert!(encode_sample_packets(&[]).is_empty());
}

#[test]
fn decode_reads_back_encoded_samples() {
    let samples: Vec<u32> = vec![1.5f32.to_bits(), (-0.25f32).to_bits(), 0, 2.0f32.to_bits()];
    let packets = encode_sample_packets(&samples);
    let words = decode_samples(&packets[0]);
    assert_eq!(words, samples);
    let back: Vec<f32> = words.into_iter().map(f32::from_bits).collect();
    assert_eq!(back, vec![1.5, -0.25, 0.0, 2.0]);
}

#[test]
fn decode_samples_big_endian() {
    assert_eq!(decode_samples(&[0, 0, 1, 0, 0xff, 0, 0, 1]), vec![256, 0xff00_0001]);
}

#[test]
fn origins_of_integer_formats() {
    assert_eq!(origin_u8(), 128);
    assert_eq!(origin_u16(), 32768);
    assert_eq!(origin_u32(None), 1 << 31);
    assert_eq!(origin_u32(Some(SampleFormat::U32)), 1 << 31);
    assert_eq!(origin_u32(Some(SampleFormat::U24)), 1 << 23);
    assert_eq!(origin_u64(), 1 << 63);
    assert_eq!(origin_i32(Some(SampleFormat::I24)), 0);
    assert_eq!(origin_i32(None), 0);
}

#[test]
fn device_type_names() {
    assert_eq!(DeviceType::Input.as_str(), "Input");
    assert_eq!(DeviceType::Output.as_str(), "Output");
}

#[test]
fn copy_from_iter_fills_while_items_last() {
    let mut v = vec![0u8; 4];
    v.copy_from_iter(vec![1, 2]);
    assert_eq!(v, vec![1, 2, 0, 0]);
    let mut w = vec![0u8; 2];
    w.copy_from_iter(vec![5, 6, 7]);
    assert_eq!(w, vec![5, 6]);
}
