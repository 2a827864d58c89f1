//! Voice notes.

use weland::recording::{
    mono_from_i16, mono_from_u16, resample_linear, start_voice_recording, stop_voice_recording, RecordingError,
    RecordingSession, VOICE_RATE,
};

#[test]
fn resample_linear_is_noop_at_same_rate() {
    let input = vec![1, -2, 3, -4, 5];
    assert_eq!(resample_linear(&input, 48000, 48000), input);
}

#[test]
fn resample_linear_handles_empty_input() {
    assert_eq!(resample_linear(&vec![], 44100, 48000), Vec::<i16>::new());
}

#[test]
fn resample_linear_upsamples_to_expected_length() {
    let input: Vec<i16> = (0..1000).map(|i| (i % 100) as i16).collect();
    let out = resample_linear(&input, 24000, 48000);
    // Exactly doubling the rate should exactly double the sample count.
    assert_eq!(out.len(), input.len() * 2);
}

#[test]
fn resample_linear_downsamples_to_expected_length() {
    let input: Vec<i16> = (0..1000).map(|i| (i % 100) as i16).collect();
    let out = resample_linear(&input, 48000, 24000);
    assert_eq!(out.len(), input.len() / 2);
}

#[test]
fn resampled_lengths_follow_the_rates_and_the_first_sample_stays() {
    for (from, to) in [(44100u32, 48000u32), (48000, 44100), (8000, 48000), (22050, 16000), (1, 3), (96000, 48000)] {
        for len in [1usize, 2, 441, 1000, 4801] {
            let input: Vec<i16> = (0..len).map(|i| (i as i64 * 37 % 2000 - 1000) as i16).collect();
            let out = resample_linear(&input, from, to);
            let off = out.len() as i64 * from as i64 - len as i64 * to as i64;
            assert!(2 * off.abs() <= from as i64, "{len} samples from {from} to {to} became {}", out.len());
            if len as u64 * to as u64 % from as u64 == 0 {
                assert_eq!(out.len() as u64, len as u64 * to as u64 / from as u64);
            }
            if let Some(first) = out.first() {
                assert_eq!(*first, input[0]);
            }
        }
    }
}

#[test]
fn resample_linear_interpolates_smoothly() {
    // A straight ramp resampled should stay smooth -- no interpolated
    // sample should jump by more than one step between neighbors.
    let input: Vec<i16> = (0..100).collect();
    let out = resample_linear(&input, 48000, 96000);
    assert_eq!(out.len(), 200);
    for w in out.windows(2) {
        assert!((w[1] - w[0]).abs() <= 1, "unexpected jump between adjacent resampled values: {w:?}");
    }
}

#[test]
fn resampled_values_lie_on_the_line_without_their_fraction() {
    assert_eq!(resample_linear(&vec![0, 10, -10], 1, 2), vec![0, 5, 10, 0, -10, -10]);
    assert_eq!(resample_linear(&vec![-3, -2], 1, 2), vec![-3, -2, -2, -2]);
    assert_eq!(resample_linear(&vec![0, 9], 1, 3), vec![0, 3, 6, 9, 9, 9]);
    // A length of two and a half samples is rounded up.
    assert_eq!(resample_linear(&vec![1, 2, 3, 4, 5], 2, 1).len(), 3);
    assert_eq!(resample_linear(&vec![1, 2, 3], 2, 0), Vec::<i16>::new());
}

/// Interpolation in double precision.
fn in_doubles(input: &[i16], from_rate: u32, to_rate: u32) -> Vec<i16> {
    let ratio = f64::from(to_rate) / f64::from(from_rate);
    let len = (input.len() as f64 * ratio).round() as usize;
    let last = input[input.len() - 1];
    (0..len)
        .map(|i| {
            let place = i as f64 / ratio;
            let k = place.floor() as usize;
            let s0 = f64::from(*input.get(k).unwrap_or(&last));
            let s1 = f64::from(*input.get(k + 1).unwrap_or(&last));
            (s0 + (s1 - s0) * (place - k as f64)) as i16
        })
        .collect()
}

#[test]
fn resampling_agrees_with_double_precision() {
    let mut state: u32 = 12345;
    let mut input: Vec<i16> = Vec::new();
    for _ in 0..5000 {
        state = state.wrapping_mul(1664525).wrapping_add(1013904223);
        input.push((state >> 16) as i16);
    }
    let rates = [(44100, 48000), (48000, 44100), (8000, 48000), (96000, 48000), (22050, 48000), (1, 3), (7, 5), (44056, 48000)];
    for (from, to) in rates {
        assert_eq!(resample_linear(&input, from, to), in_doubles(&input, from, to), "{from} to {to}");
    }
    let wide = vec![i16::MIN, i16::MAX, i16::MIN, 0, -1, 1];
    for (from, to) in [(3, 1000), (1, 4096), (4096, 1), (11025, 48000), (49, 48), (4294967295, 4294967291)] {
        assert_eq!(resample_linear(&wide, from, to), in_doubles(&wide, from, to), "{from} to {to}");
    }
}

#[test]
fn frames_are_averaged_over_their_channels() {
    assert_eq!(mono_from_i16(&vec![10, 20, -5, -6], 2), vec![15, -5]);
    // The last frame is cut short, and still divided by the number of channels.
    assert_eq!(mono_from_i16(&vec![3, 3, 9], 2), vec![3, 4]);
    assert_eq!(mono_from_i16(&vec![i16::MIN, i16::MIN], 2), vec![i16::MIN]);
    assert_eq!(mono_from_u16(&vec![32768, 32770, 0, 65535], 2), vec![1, 0]);
}

#[test]
fn sessions_collect_samples_until_they_are_stopped() {
    let mut session = RecordingSession::start(VOICE_RATE, 2);
    session.capture_i16(&vec![2, 4]);
    session.capture_u16(&vec![32768, 32768]);
    session.push_mono(vec![7]);
    match session.stop() {
        Ok(samples) => assert_eq!(samples, vec![3, 0, 7]),
        Err(_) => panic!("something was captured"),
    }
    let mut slow = RecordingSession::start(24000, 1);
    slow.capture_i16(&vec![0, 4]);
    match slow.stop() {
        Ok(samples) => assert_eq!(samples, vec![0, 2, 4, 4]),
        Err(_) => panic!("something was captured"),
    }
    match RecordingSession::start(44100, 1).stop() {
        Err(e) => {
            assert_eq!(e, RecordingError::Empty);
            assert_eq!(e.message(), "The recording came out empty \u{2014} nothing was captured.");
        }
        Ok(_) => panic!("nothing was captured"),
    }
}

#[test]
fn recordings_are_started_and_stopped() {
    let mut recording = None;
    match stop_voice_recording(&mut recording) {
        Err(e) => {
            assert_eq!(e, RecordingError::NotRecording);
            assert_eq!(e.message(), "Not currently recording");
        }
        Ok(_) => panic!("nothing is being recorded"),
    }
    start_voice_recording(&mut recording, VOICE_RATE, 1);
    if let Some(session) = &mut recording {
        session.capture_i16(&vec![5, 6]);
    }
    match stop_voice_recording(&mut recording) {
        Ok(samples) => assert_eq!(samples, vec![5, 6]),
        Err(_) => panic!("something was captured"),
    }
    assert!(recording.is_none());
}
