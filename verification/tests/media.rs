use ryu_subtitles::library::MediaPath;
use ryu_subtitles::media::{
    after_decode, after_packet, encode_wav, frame_len, is_media_extension, is_media_path,
    map_stream_error, samples_per, samples_to_ms, select_track, total_ms, MediaError,
    PendingWindow, Step, StreamError, TrackOffer, WindowAccumulator, CUT_SEARCH_SECS, NO_DECODER, TARGET_RATE,
    WINDOW_SECS,
};

fn path(text: &str) -> MediaPath {
    MediaPath::parse(text, '/')
}

#[test]
fn windows_cut_at_the_quiet_gap_not_the_nominal_point() {
    let mut acc = WindowAccumulator::new();
    // Loud everywhere except a 300 ms gap two seconds past the nominal cut.
    let gap_start = samples_per(WINDOW_SECS + 2);
    let gap_end = gap_start + samples_per(1) / 3;
    for i in 0..samples_per(WINDOW_SECS + CUT_SEARCH_SECS) {
        let v = if i >= gap_start && i < gap_end { 0 } else { 12_000 };
        acc.push(v);
    }
    let window = acc.take_ready().expect("a full window should be staged");
    let cut = window.samples.len();
    assert!(
        cut > gap_start && cut < gap_end,
        "cut {cut} should land inside the quiet gap {gap_start}..{gap_end}"
    );
}

#[test]
fn window_offsets_are_contiguous_and_absolute() {
    let mut acc = WindowAccumulator::new();
    for _ in 0..samples_per((WINDOW_SECS + CUT_SEARCH_SECS) * 2 + 1) {
        acc.push(1000);
    }
    let first = acc.take_ready().expect("first window");
    let second = acc.take_ready().expect("second window");
    assert_eq!(first.offset_ms, 0);
    assert_eq!(second.offset_ms, first.end_ms());
}

#[test]
fn remainder_is_emitted_but_a_sliver_is_not() {
    let mut acc = WindowAccumulator::new();
    for _ in 0..samples_per(2) {
        acc.push(500);
    }
    assert!(acc.take_remainder().is_some(), "2 s tail is real audio");

    let mut sliver = WindowAccumulator::new();
    for _ in 0..10 {
        sliver.push(500);
    }
    assert!(
        sliver.take_remainder().is_none(),
        "a 10-sample tail is not worth a hallucinated word"
    );
}

#[test]
fn encoded_window_is_a_readable_16k_mono_wav() {
    let pcm: Vec<i16> = (0..1600).map(|i| (i % 100) as i16 * 100).collect();
    let wav = encode_wav(&pcm);
    let reader = hound::WavReader::new(std::io::Cursor::new(wav)).expect("valid WAV");
    assert_eq!(reader.spec().channels, 1);
    assert_eq!(reader.spec().sample_rate, TARGET_RATE);
    assert_eq!(reader.len() as usize, pcm.len());
}

#[test]
fn media_extension_gate_is_case_insensitive_and_closed() {
    assert!(is_media_path(&path("/a/b/Talk.MP4")));
    assert!(is_media_path(&path("/a/b/talk.mkv")));
    assert!(!is_media_path(&path("/a/b/talk.txt")));
    assert!(!is_media_path(&path("/etc/passwd")));
}

#[test]
fn extensions_are_known_with_or_without_capitals() {
    assert!(is_media_extension("mp3"));
    assert!(is_media_extension("WebM"));
    assert!(!is_media_extension("srt"));
    assert!(!is_media_extension(""));
}

#[test]
fn an_encoded_window_is_the_file_to_the_byte() {
    let wav = encode_wav(&[0, 1, -1, 256]);
    let mut expected: Vec<u8> = Vec::new();
    expected.extend_from_slice(b"RIFF");
    expected.extend_from_slice(&44u32.to_le_bytes());
    expected.extend_from_slice(b"WAVEfmt ");
    expected.extend_from_slice(&16u32.to_le_bytes());
    expected.extend_from_slice(&1u16.to_le_bytes());
    expected.extend_from_slice(&1u16.to_le_bytes());
    expected.extend_from_slice(&16_000u32.to_le_bytes());
    expected.extend_from_slice(&32_000u32.to_le_bytes());
    expected.extend_from_slice(&2u16.to_le_bytes());
    expected.extend_from_slice(&16u16.to_le_bytes());
    expected.extend_from_slice(b"data");
    expected.extend_from_slice(&8u32.to_le_bytes());
    expected.extend_from_slice(&[0, 0, 1, 0, 255, 255, 0, 1]);
    assert_eq!(wav, expected);
    assert_eq!(encode_wav(&[]).len(), 44);
}

#[test]
fn encoded_samples_read_back_with_the_reader_of_the_format() {
    let pcm: Vec<i16> = vec![0, 100, -100, 200, i16::MIN, i16::MAX];
    let mut reader =
        hound::WavReader::new(std::io::Cursor::new(encode_wav(&pcm))).expect("valid WAV");
    let back: Vec<i16> = reader.samples::<i16>().map(|s| s.expect("sample")).collect();
    assert_eq!(back, pcm);
}

#[test]
fn windows_hold_every_sample_once() {
    let mut acc = WindowAccumulator::new();
    let all: Vec<i16> = (0..samples_per(40)).map(|i| (i % 251) as i16).collect();
    let mut windows = acc.feed(&all[..100_000]);
    windows.extend(acc.feed(&all[100_000..]));
    if let Some(rest) = acc.take_remainder() {
        windows.push(rest);
    }
    assert_eq!(windows.len(), 2);
    let heard: Vec<i16> = windows.iter().flat_map(|w| w.samples.clone()).collect();
    assert_eq!(heard, all);
    assert!(windows[0].samples.len() <= samples_per(WINDOW_SECS + CUT_SEARCH_SECS));
}

#[test]
fn the_cut_lands_in_the_middle_of_the_quietest_frame() {
    let mut acc = WindowAccumulator::new();
    let quiet = samples_per(WINDOW_SECS);
    for i in 0..samples_per(WINDOW_SECS + CUT_SEARCH_SECS) {
        let v = if i >= quiet && i < quiet + frame_len() { 1 } else { 500 };
        acc.push(v);
    }
    let window = acc.take_ready().expect("window");
    assert_eq!(window.samples.len(), quiet + frame_len() / 2);
}

#[test]
fn samples_and_milliseconds() {
    assert_eq!(samples_per(1), 16_000);
    assert_eq!(frame_len(), 1_600);
    assert_eq!(samples_to_ms(16_000), 1_000);
    assert_eq!(samples_to_ms(8), 0);
    let window = PendingWindow {
        offset_ms: 500,
        samples: vec![0; 1_600],
    };
    assert_eq!(window.end_ms(), 600);
    let ready = window.into_window();
    assert_eq!((ready.offset_ms, ready.duration_ms), (500, 100));
    assert_eq!(ready.wav.len(), 44 + 3_200);
}

#[test]
fn the_length_that_the_container_declares() {
    assert_eq!(total_ms(Some(48_000), Some(48_000)), Some(1_000));
    assert_eq!(total_ms(Some(44_100 * 3), Some(44_100)), Some(3_000));
    assert_eq!(total_ms(None, Some(48_000)), None);
    assert_eq!(total_ms(Some(1), None), None);
    assert_eq!(total_ms(Some(1), Some(0)), None);
}

#[test]
fn the_first_track_that_can_be_decoded_is_taken() {
    let offer = |id: u32, audio: bool, has_codec: bool, decodable: bool| TrackOffer {
        id,
        audio,
        has_codec,
        decodable,
    };
    assert_eq!(
        select_track(&[
            offer(1, false, false, false),
            offer(2, true, true, true),
            offer(3, true, true, true)
        ]),
        Ok(2)
    );
    // A track that cannot be decoded does not keep a later one from being read.
    assert_eq!(
        select_track(&[offer(1, true, true, false), offer(2, true, true, true)]),
        Ok(2)
    );
    assert_eq!(
        select_track(&[offer(1, false, false, false)]),
        Err(MediaError::NoAudioTrack)
    );
    assert_eq!(select_track(&[]), Err(MediaError::NoAudioTrack));
}

#[test]
fn a_codec_without_a_decoder_is_told_from_a_file_without_sound() {
    let picture = TrackOffer {
        id: 1,
        audio: false,
        has_codec: true,
        decodable: false,
    };
    let sound = TrackOffer {
        id: 2,
        audio: true,
        has_codec: true,
        decodable: false,
    };
    assert_eq!(select_track(&[picture]), Err(MediaError::NoAudioTrack));
    assert_eq!(
        select_track(&[picture, sound]),
        Err(MediaError::Unsupported(NO_DECODER.to_string()))
    );
    // A codec that the demuxer has no name for is sound all the same.
    let nameless = TrackOffer {
        id: 3,
        audio: true,
        has_codec: false,
        decodable: false,
    };
    assert_eq!(
        select_track(&[picture, nameless]),
        Err(MediaError::Unsupported(NO_DECODER.to_string()))
    );
    assert_eq!(
        select_track(&[nameless]),
        Err(MediaError::Unsupported(NO_DECODER.to_string()))
    );
}

#[test]
fn a_stream_error_is_told_for_what_it_is() {
    assert!(matches!(
        map_stream_error(StreamError::Io("gone".to_string())),
        MediaError::Io(_)
    ));
    assert!(matches!(
        map_stream_error(StreamError::Unsupported("codec".to_string())),
        MediaError::Unsupported(_)
    ));
    assert!(matches!(
        map_stream_error(StreamError::Other("odd".to_string())),
        MediaError::Decode(_)
    ));
    assert_eq!(
        MediaError::NoAudioTrack.message(),
        "this file has no audio track to transcribe"
    );
    assert_eq!(
        MediaError::Io("x".to_string()).message(),
        "could not open the media file: x"
    );
    assert_eq!(
        MediaError::Unsupported("x".to_string()).message(),
        "this file's container or audio codec is not supported: x"
    );
    assert_eq!(
        MediaError::Decode("x".to_string()).message(),
        "the audio stream could not be decoded: x"
    );
}

#[test]
fn packets_of_other_tracks_are_passed_over_and_the_end_is_no_error() {
    assert_eq!(after_packet(Ok(2), 2), Step::Use);
    assert_eq!(after_packet(Ok(1), 2), Step::Skip);
    assert_eq!(
        after_packet(Err(StreamError::EndOfStream("end".to_string())), 2),
        Step::Finish
    );
    assert!(matches!(
        after_packet(Err(StreamError::Io("disk".to_string())), 2),
        Step::Fail(MediaError::Io(_))
    ));
    assert_eq!(after_decode(Ok(())), Step::Use);
    assert_eq!(
        after_decode(Err(StreamError::Corrupt("bad".to_string()))),
        Step::Skip
    );
}
