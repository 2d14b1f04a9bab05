use tempo::decode::{append_mono, choose_track, Audio, Decoded, Packet, Samples, Step};
use tempo::double::Double;

fn float(x: Double) -> f64 {
    f64::from_bits(x.to_bits())
}

fn singles(values: &[f32]) -> Vec<Double> {
    values.iter().map(|&x| Double::from_bits((x as f64).to_bits())).collect()
}

fn mixed(samples: &Samples, channels: usize) -> Vec<f32> {
    let mut out = Vec::new();
    append_mono(samples, channels, &mut out);
    out.iter()
        .map(|&x| {
            assert_eq!(float(x), float(x) as f32 as f64);
            float(x) as f32
        })
        .collect()
}

/// The mean of the channels in each frame, in single precision.
fn means(planes: &[Vec<f32>]) -> Vec<f32> {
    (0..planes[0].len())
        .map(|f| {
            let sum: f32 = planes.iter().map(|p| p[f]).sum();
            sum / planes.len() as f32
        })
        .collect()
}

#[test]
fn floats_are_averaged() {
    let planes = vec![vec![0.1f32, -0.5, 1.0e-40], vec![0.7, 0.25, 0.0], vec![0.3, -1.0, 3.0e38]];
    let samples = Samples::F32(planes.iter().map(|p| singles(p)).collect());
    assert_eq!(mixed(&samples, 3), means(&planes));
    assert_eq!(mixed(&samples, 2), means(&planes[..2]));
    assert_eq!(mixed(&samples, 1), planes[0]);
}

#[test]
fn integers_are_scaled() {
    let s16 = vec![vec![i16::MIN, -1, 0, 1, 12345, i16::MAX], vec![3, 3, 3, -3, 32000, -32768]];
    let scaled: Vec<Vec<f32>> = s16.iter().map(|p| p.iter().map(|&s| s as f32 / i16::MAX as f32).collect()).collect();
    assert_eq!(mixed(&Samples::S16(s16), 2), means(&scaled));

    let s32 = vec![vec![i32::MIN, -1, 0, 16_777_217, i32::MAX]];
    let scaled: Vec<Vec<f32>> = s32.iter().map(|p| p.iter().map(|&s| s as f32 / i32::MAX as f32).collect()).collect();
    assert_eq!(mixed(&Samples::S32(s32), 1), means(&scaled));

    let u8s = vec![vec![0u8, 127, 128, 129, 255], vec![255, 1, 2, 3, 4]];
    let scaled: Vec<Vec<f32>> = u8s.iter().map(|p| p.iter().map(|&s| (s as f32 - 128.0) / 128.0).collect()).collect();
    assert_eq!(mixed(&Samples::U8(u8s), 2), means(&scaled));
}

#[test]
fn interleaved_frames_are_taken_apart() {
    let samples = Samples::Interleaved(singles(&[0.5, 0.25, -1.0, 1.0, 0.125]));
    // The last frame is not complete.
    assert_eq!(mixed(&samples, 2), vec![0.375, 0.0]);
    assert_eq!(mixed(&samples, 1), vec![0.5, 0.25, -1.0, 1.0, 0.125]);
    assert!(mixed(&Samples::Interleaved(Vec::new()), 2).is_empty());
}

#[test]
fn the_first_track_with_a_codec_is_chosen() {
    assert_eq!(choose_track(&[false, true, true]), Ok(1));
    assert_eq!(choose_track(&[false, false]), Err("no supported audio track found".to_string()));
    assert!(choose_track(&[]).is_err());
}

#[test]
fn packets_lead_to_steps() {
    let audio = Audio::new(3);
    assert_eq!(audio.after_packet(Packet::Of(3)), Step::Decode);
    assert_eq!(audio.after_packet(Packet::Of(4)), Step::Next);
    assert_eq!(audio.after_packet(Packet::End), Step::Finish);
    assert_eq!(audio.after_packet(Packet::Reset), Step::Finish);
    assert_eq!(audio.after_packet(Packet::Failed), Step::Fail);
}

#[test]
fn decoded_packets_add_samples() {
    let mut audio = Audio::new(0);
    assert_eq!(audio.sample_rate, 0);
    let stereo = Samples::Interleaved(singles(&[0.5, 0.25, -1.0, 1.0]));
    assert_eq!(audio.after_decoding(Decoded::Buffer(44100, 2, stereo)), Step::Next);
    assert_eq!(audio.after_decoding(Decoded::Malformed), Step::Next);
    // No channels count as one.
    let mono = Samples::F32(vec![singles(&[0.75])]);
    assert_eq!(audio.after_decoding(Decoded::Buffer(48000, 0, mono)), Step::Next);
    assert_eq!(audio.after_decoding(Decoded::Failed), Step::Fail);
    assert_eq!(audio.sample_rate, 48000);
    let samples: Vec<f64> = audio.samples.iter().map(|&x| float(x)).collect();
    assert_eq!(samples, vec![0.375, 0.0, 0.75]);
}
