use std::io::Cursor;

use ryu_subtitles::media::encode_wav;
use ryu_subtitles::parakeet::{
    decoding_message, describe, frame_count, integer_samples, preload, sample_scale, transcribe, unload, Scale,
    WavLayout,
};

fn layout(channels: u16, bits_per_sample: u16, float: bool) -> WavLayout {
    WavLayout {
        channels,
        sample_rate: 24_000,
        bits_per_sample,
        float,
        samples: 4,
    }
}

fn stereo() -> Vec<u8> {
    let spec = hound::WavSpec {
        channels: 2,
        sample_rate: 24_000,
        bits_per_sample: 16,
        sample_format: hound::SampleFormat::Int,
    };
    let mut input = Cursor::new(Vec::new());
    let mut writer = hound::WavWriter::new(&mut input, spec).expect("input wav");
    for sample in [12_000i16, 6_000, -12_000, -6_000] {
        writer.write_sample(sample).expect("sample");
    }
    writer.finalize().expect("finalize");
    input.into_inner()
}

#[test]
fn transcribe_without_feature_returns_actionable_error() {
    let msg = transcribe(b"audio".to_vec(), "/nope/model".to_string())
        .expect_err("feature-off build must not silently succeed");
    assert!(msg.contains("not built"), "got: {msg}");
    assert!(msg.contains("voice-parakeet"), "got: {msg}");
    assert!(
        msg.contains("whisper.cpp"),
        "should suggest the fallback: {msg}"
    );
}

#[test]
fn preload_without_feature_is_ok_noop() {
    preload("/definitely/missing").expect("no-op preload");
}

#[test]
fn unload_without_feature_does_not_panic() {
    unload();
    // Idempotent.
    unload();
}

#[test]
fn the_header_of_a_file_is_read() {
    let found = describe(&stereo()).expect("wav");
    assert_eq!(
        found,
        WavLayout {
            channels: 2,
            sample_rate: 24_000,
            bits_per_sample: 16,
            float: false,
            samples: 4,
        }
    );
    let err = describe(b"not a wav").expect_err("must refuse");
    assert!(err.starts_with("reading WAV input for Parakeet: "), "{err}");
}

#[test]
fn the_samples_of_a_file_are_read() {
    assert_eq!(
        integer_samples(&stereo(), 16),
        Ok(vec![12_000, 6_000, -12_000, -6_000])
    );
    let err = integer_samples(b"not a wav", 24).expect_err("must refuse");
    assert!(err.starts_with("decoding 24/32-bit WAV input: "), "{err}");
}

fn mono(bits_per_sample: u16, samples: &[i32]) -> Vec<u8> {
    let spec = hound::WavSpec {
        channels: 1,
        sample_rate: 24_000,
        bits_per_sample,
        sample_format: hound::SampleFormat::Int,
    };
    let mut file = Cursor::new(Vec::new());
    let mut writer = hound::WavWriter::new(&mut file, spec).expect("wav");
    for sample in samples {
        writer.write_sample(*sample).expect("sample");
    }
    writer.finalize().expect("finalize");
    file.into_inner()
}

#[test]
fn samples_are_read_as_integers_of_their_own_width() {
    let small = [0, 1, -1, 127, -128];
    assert_eq!(integer_samples(&mono(8, &small), 8), Ok(small.to_vec()));
    let wide = [0, 8_388_607, -8_388_608];
    assert_eq!(integer_samples(&mono(24, &wide), 24), Ok(wide.to_vec()));
    assert_eq!(integer_samples(&mono(32, &wide), 32), Ok(wide.to_vec()));
    // A width that is not the file's own is refused for what it is.
    for (held, asked) in [(16, 8), (24, 16), (32, 16)] {
        let err = integer_samples(&mono(held, &small), asked).expect_err("too wide");
        assert_eq!(err, decoding_message(asked, &hound::Error::TooWide.to_string()));
    }
}

#[test]
fn what_a_window_holds_is_what_the_engine_reads() {
    let wav = encode_wav(&[0, 100, -100, 200]);
    let found = describe(&wav).expect("wav");
    assert_eq!(
        (found.channels, found.sample_rate, found.bits_per_sample, found.float, found.samples),
        (1, 16_000, 16, false, 4)
    );
    assert_eq!(integer_samples(&wav, 16), Ok(vec![0, 100, -100, 200]));
}

#[test]
fn samples_are_scaled_by_their_width() {
    assert_eq!(sample_scale(&layout(1, 8, false)), Ok(Scale::By(128)));
    assert_eq!(sample_scale(&layout(1, 16, false)), Ok(Scale::By(32_767)));
    assert_eq!(sample_scale(&layout(1, 24, false)), Ok(Scale::By(8_388_607)));
    assert_eq!(
        sample_scale(&layout(1, 32, false)),
        Ok(Scale::By(2_147_483_647))
    );
    assert_eq!(sample_scale(&layout(2, 32, true)), Ok(Scale::AsIs));
}

#[test]
fn formats_that_are_not_understood_are_refused() {
    assert_eq!(
        sample_scale(&layout(0, 16, false)),
        Err("WAV input has no channels".to_string())
    );
    let mut silent = layout(1, 16, false);
    silent.sample_rate = 0;
    assert_eq!(
        sample_scale(&silent),
        Err("WAV input has no sample rate".to_string())
    );
    assert_eq!(
        sample_scale(&layout(2, 64, true)),
        Err(
            "unsupported WAV format: 2 channels, 24000 Hz, 64-bit Float; expected PCM or 32-bit float"
                .to_string()
        )
    );
}

#[test]
fn frames_are_counted() {
    assert_eq!(frame_count(4, 2), Ok(2));
    assert_eq!(
        frame_count(3, 2),
        Err("WAV sample count is not divisible by its channel count")
    );
    assert_eq!(frame_count(0, 2), Err("WAV input has no samples"));
}
