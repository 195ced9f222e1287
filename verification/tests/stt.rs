use ryu_subtitles::parakeet;
use ryu_subtitles::stt::{
    audio_cpp_request, default_stt_engine, gateway_request, parse_audio_cpp_segments,
    parse_verbose_segments, plan_transcription, port_of, read_body, read_parakeet, read_reply,
    resolve_engine, route, text_only, understand, whisper_request, EngineEnv, Outcome, Plan,
    RawReply, RawSegment, Request, Route, SidecarSttHost, SttHost, TranscriptSegment,
    Transcription,
};

struct FakeHost {
    whisper: String,
    audio_cpp: String,
    gateway: String,
    bearer: Result<String, String>,
}

impl Default for FakeHost {
    fn default() -> Self {
        Self {
            whisper: "http://127.0.0.1:0".to_string(),
            audio_cpp: "http://127.0.0.1:0".to_string(),
            gateway: "http://127.0.0.1:0".to_string(),
            bearer: Ok("testtoken".to_string()),
        }
    }
}

impl SttHost for FakeHost {
    fn whisper_base_url(&self) -> String {
        self.whisper.clone()
    }
    fn audio_cpp_base_url(&self) -> String {
        self.audio_cpp.clone()
    }
    fn gateway_url(&self) -> String {
        self.gateway.clone()
    }
    fn gateway_bearer(&self) -> Result<String, String> {
        self.bearer.clone()
    }
    fn parakeet_model_dir(&self) -> String {
        "/nonexistent/parakeet-model".to_string()
    }
}

fn no_env() -> EngineEnv {
    EngineEnv {
        engine: None,
        gateway_provider: None,
        gateway_model: None,
    }
}

fn url_of(request: &Request) -> &str {
    match request {
        Request::Upload { url, .. } => url,
        Request::Slot { url, .. } => url,
    }
}

/// A transcription from end to end, with an engine that answers everything alike.
fn transcribe_wav_detailed(
    host: &FakeHost,
    env: &EngineEnv,
    bytes: &[u8],
    filename: &str,
    engine: &str,
    outcome: Outcome,
) -> Result<Transcription, String> {
    let plan = plan_transcription(
        host,
        &Some(engine.to_string()),
        env,
        bytes.to_vec(),
        filename.to_string(),
    )?;
    match plan {
        Plan::Run { bytes, model_dir } => read_parakeet(parakeet::transcribe(bytes, model_dir)),
        Plan::Send { route, request } => read_reply(route, url_of(&request), outcome),
    }
}

fn answered(body: &str) -> Outcome {
    Outcome::Answered(body.to_string())
}

fn body(text: &str) -> RawReply {
    read_body(text).expect("JSON")
}

#[test]
fn parses_verbose_segments_seconds_to_ms() {
    let reply = body(
        r#"{ "text": "hello world", "segments": [
            { "start": 0.0, "end": 1.5, "text": " hello" },
            { "start": 1.5, "end": 2.25, "text": " world " } ] }"#,
    );
    let segs = parse_verbose_segments(&reply);
    assert_eq!(segs.len(), 2);
    assert_eq!(segs[0].start_ms, 0);
    assert_eq!(segs[0].end_ms, 1500);
    assert_eq!(segs[0].text, "hello");
    assert_eq!(segs[1].start_ms, 1500);
    assert_eq!(segs[1].end_ms, 2250);
    assert_eq!(segs[1].text, "world");
}

#[test]
fn missing_or_malformed_segments_yield_empty() {
    assert!(parse_verbose_segments(&body(r#"{ "text": "x" }"#)).is_empty());
    assert!(parse_verbose_segments(&body(r#"{ "segments": "not-an-array" }"#)).is_empty());
    // An entry missing start/end is skipped, not an error.
    let partial = body(r#"{ "segments": [ { "text": "no timings" } ] }"#);
    assert!(parse_verbose_segments(&partial).is_empty());
}

#[test]
fn default_engine_env_override_wins() {
    assert_eq!(default_stt_engine(&Some("gateway".to_string())), "gateway");
    // Blank falls through to the compiled default (parakeet or whisper).
    let compiled = default_stt_engine(&Some("   ".to_string()));
    assert!(compiled == "parakeet" || compiled == "whisper");
    assert_eq!(default_stt_engine(&None), "whisper");
}

#[test]
fn verbose_segments_clamp_negative_timestamps_to_zero() {
    let reply = body(r#"{ "segments": [ { "start": -1.0, "end": -0.5, "text": "  neg  " } ] }"#);
    let segs = parse_verbose_segments(&reply);
    assert_eq!(segs.len(), 1);
    assert_eq!(segs[0].start_ms, 0);
    assert_eq!(segs[0].end_ms, 0);
    assert_eq!(segs[0].text, "neg");
}

#[test]
fn verbose_segment_missing_text_defaults_empty_but_keeps_timing() {
    let reply = body(r#"{ "segments": [ { "start": 1.0, "end": 2.0 } ] }"#);
    let segs = parse_verbose_segments(&reply);
    assert_eq!(segs.len(), 1);
    assert_eq!(segs[0].start_ms, 1000);
    assert_eq!(segs[0].end_ms, 2000);
    assert_eq!(segs[0].text, "");
}

#[test]
fn transcription_and_segment_defaults_are_empty() {
    let t = Transcription::default();
    assert!(t.text.is_empty());
    assert!(t.segments.is_empty());
    let s = TranscriptSegment::default();
    assert_eq!(s.start_ms, 0);
    assert_eq!(s.end_ms, 0);
    assert!(s.text.is_empty());
    // Clone/Debug are derived — exercise them so they count.
    let _ = format!("{:?}", t.clone());
    let _ = format!("{:?}", s.clone());
}

#[test]
fn whisper_success_parses_text_and_segments() {
    let out = transcribe_wav_detailed(
        &FakeHost::default(),
        &no_env(),
        b"fakeaudio",
        "clip.wav",
        "whisper",
        answered(
            r#"{"text":"  hello there  ","segments":[{"start":0.0,"end":1.0,"text":" hello"},{"start":1.0,"end":2.0,"text":" there"}]}"#,
        ),
    )
    .expect("whisper transcription should succeed");
    assert_eq!(out.text, "hello there");
    assert_eq!(out.segments.len(), 2);
    assert_eq!(out.segments[0].text, "hello");
    assert_eq!(out.segments[1].end_ms, 2000);
}

#[test]
fn audiocpp_success_parses_sample_segments() {
    let out = transcribe_wav_detailed(
        &FakeHost::default(),
        &no_env(),
        b"fakeaudio",
        "clip.wav",
        "audiocpp",
        answered(
            r#"{"text":"  hello from audio cpp  ","timing":{"sample_rate":16000},"segments":[{"start_sample":0,"end_sample":24000,"text":" hello "},{"start_sample":24000,"end_sample":40000,"text":" from audio cpp "}]}"#,
        ),
    )
    .expect("audio.cpp transcription should succeed");
    assert_eq!(out.text, "hello from audio cpp");
    assert_eq!(out.segments.len(), 2);
    assert_eq!(out.segments[0].end_ms, 1500);
    assert_eq!(out.segments[1].start_ms, 1500);
    assert_eq!(out.segments[1].end_ms, 2500);
}

#[test]
fn audiocpp_segment_parser_prefers_seconds_when_both_exist() {
    let reply = body(
        r#"{ "timing": { "sample_rate": 16000 },
             "segments": [{ "start": 0.25, "end": 0.75, "start_sample": 0, "end_sample": 32000, "text": "hello" }] }"#,
    );
    let segments = parse_audio_cpp_segments(&reply);
    assert_eq!(segments[0].start_ms, 250);
    assert_eq!(segments[0].end_ms, 750);
}

#[test]
fn whisper_text_only_wrapper_returns_string() {
    let text = text_only(transcribe_wav_detailed(
        &FakeHost::default(),
        &no_env(),
        b"a",
        "c.wav",
        "whisper",
        answered(r#"{"text":"just text"}"#),
    ))
    .expect("text");
    assert_eq!(text, "just text");
}

#[test]
fn whisper_non_success_status_is_error() {
    let err = transcribe_wav_detailed(
        &FakeHost::default(),
        &no_env(),
        b"a",
        "c.wav",
        "whisper",
        Outcome::Refused(
            "500 Internal Server Error".to_string(),
            "model exploded".to_string(),
        ),
    )
    .unwrap_err();
    assert!(err.contains("whisper returned 500"), "got: {err}");
    assert!(err.contains("model exploded"), "got: {err}");
}

#[test]
fn whisper_unparseable_body_is_error() {
    let err = transcribe_wav_detailed(
        &FakeHost::default(),
        &no_env(),
        b"a",
        "c.wav",
        "whisper",
        answered("this is not json"),
    )
    .unwrap_err();
    assert!(
        err.contains("could not parse whisper response"),
        "got: {err}"
    );
}

#[test]
fn whisper_unreachable_host_is_error() {
    let err = transcribe_wav_detailed(
        &FakeHost::default(),
        &no_env(),
        b"a",
        "c.wav",
        "whisper",
        Outcome::Unreachable("connection refused".to_string()),
    )
    .unwrap_err();
    assert!(err.contains("not reachable"), "got: {err}");
    assert!(
        err.contains("whispercpp"),
        "actionable hint expected: {err}"
    );
}

#[test]
fn empty_engine_selector_falls_through_to_compiled_default() {
    let out = transcribe_wav_detailed(
        &FakeHost::default(),
        &no_env(),
        b"a",
        "c.wav",
        "   ",
        answered(r#"{"text":"fallback"}"#),
    )
    .expect("whisper");
    assert_eq!(out.text, "fallback");
    assert_eq!(resolve_engine(&Some("   ".to_string()), &None), "whisper");
}

#[test]
fn gateway_success_sends_default_slot_headers_and_bearer() {
    let host = FakeHost {
        bearer: Ok("secret-slot-token".to_string()),
        ..FakeHost::default()
    };
    let reply = r#"{"text":" gw text ","segments":[{"start":0.0,"end":0.5,"text":"gw"}]}"#;
    let out = transcribe_wav_detailed(&host, &no_env(), b"a", "c.wav", "gateway", answered(reply))
        .expect("gateway");
    assert_eq!(out.text, "gw text");
    assert_eq!(out.segments.len(), 1);
    let plan = plan_transcription(
        &host,
        &Some("gateway".to_string()),
        &no_env(),
        b"a".to_vec(),
        "c.wav".to_string(),
    )
    .expect("plan");
    match plan {
        Plan::Send {
            route: Route::Gateway,
            request:
                Request::Slot {
                    url,
                    bearer,
                    provider,
                    model,
                    file,
                    response_format,
                },
        } => {
            assert_eq!(response_format, "verbose_json");
            assert_eq!(url, "http://127.0.0.1:0/v1/audio/transcriptions");
            assert_eq!(provider, "openai");
            assert_eq!(model, "whisper-large-v3");
            assert_eq!(bearer, "secret-slot-token");
            assert_eq!(file, "YQ==");
        }
        other => panic!("unexpected plan {other:?}"),
    }
}

#[test]
fn gateway_env_overrides_provider_and_model() {
    let env = EngineEnv {
        engine: None,
        gateway_provider: Some("groq".to_string()),
        gateway_model: Some("whisper-turbo".to_string()),
    };
    // Trailing slash on the gateway base must be trimmed before the path join.
    let host = FakeHost {
        gateway: "http://127.0.0.1:7981/".to_string(),
        ..FakeHost::default()
    };
    let out = transcribe_wav_detailed(
        &host,
        &env,
        b"a",
        "c.wav",
        "gateway",
        answered(r#"{"text":"x"}"#),
    )
    .expect("gateway");
    assert_eq!(out.text, "x");
    let request = gateway_request(&host.gateway_url(), host.gateway_bearer(), &env, b"a")
        .expect("request");
    match request {
        Request::Slot {
            url,
            provider,
            model,
            ..
        } => {
            assert_eq!(url, "http://127.0.0.1:7981/v1/audio/transcriptions");
            assert_eq!(provider, "groq");
            assert_eq!(model, "whisper-turbo");
        }
        other => panic!("unexpected request {other:?}"),
    }
}

#[test]
fn gateway_bearer_error_short_circuits() {
    let host = FakeHost {
        bearer: Err("no gateway token configured".to_string()),
        ..FakeHost::default()
    };
    let err = plan_transcription(
        &host,
        &Some("gateway".to_string()),
        &no_env(),
        b"a".to_vec(),
        "c.wav".to_string(),
    )
    .unwrap_err();
    assert_eq!(err, "no gateway token configured");
}

#[test]
fn gateway_non_success_status_is_error() {
    let err = transcribe_wav_detailed(
        &FakeHost::default(),
        &no_env(),
        b"a",
        "c.wav",
        "gateway",
        Outcome::Refused("401 Unauthorized".to_string(), "bad key".to_string()),
    )
    .unwrap_err();
    assert!(err.contains("gateway STT returned 401"), "got: {err}");
    assert!(err.contains("bad key"), "got: {err}");
}

#[test]
fn gateway_unparseable_body_is_error() {
    let err = transcribe_wav_detailed(
        &FakeHost::default(),
        &no_env(),
        b"a",
        "c.wav",
        "gateway",
        answered("<html>not json</html>"),
    )
    .unwrap_err();
    assert!(
        err.contains("could not parse gateway STT response"),
        "got: {err}"
    );
}

#[test]
fn gateway_unreachable_host_is_error() {
    let err = transcribe_wav_detailed(
        &FakeHost::default(),
        &no_env(),
        b"a",
        "c.wav",
        "gateway",
        Outcome::Unreachable("connection refused".to_string()),
    )
    .unwrap_err();
    assert!(err.contains("gateway STT unreachable"), "got: {err}");
}

#[test]
fn parakeet_engine_without_feature_reports_not_built() {
    let err = transcribe_wav_detailed(
        &FakeHost::default(),
        &no_env(),
        b"a",
        "c.wav",
        "parakeet",
        answered("{}"),
    )
    .unwrap_err();
    assert!(err.contains("parakeet transcription failed"), "got: {err}");
    assert!(err.contains("not built"), "got: {err}");
}

#[test]
fn a_body_is_read_field_by_field() {
    let reply = body(
        r#"{ "text": " hi ", "sample_rate": 8000, "timing": { "sample_rate": "fast" },
             "segments": [ 7, { "start": 1, "end": "late", "start_sample": 4000, "end_sample": 8000.0, "text": 5 } ] }"#,
    );
    assert_eq!(reply.text.as_deref(), Some(" hi "));
    assert_eq!(reply.timing_rate, None);
    assert_eq!(reply.rate, Some(8000.0f64.to_bits()));
    let empty = RawSegment {
        start: None,
        end: None,
        start_sample: None,
        end_sample: None,
        text: None,
    };
    assert_eq!(
        reply.segments,
        Some(vec![
            empty,
            RawSegment {
                start: Some(1.0f64.to_bits()),
                end: None,
                start_sample: Some(4000.0f64.to_bits()),
                end_sample: Some(8000.0f64.to_bits()),
                text: None,
            }
        ])
    );
    let heard = understand(Route::AudioCpp, &reply);
    assert_eq!(heard.text, "hi");
    assert_eq!(
        heard.segments,
        vec![TranscriptSegment {
            start_ms: 500,
            end_ms: 1000,
            text: String::new()
        }]
    );
    assert!(understand(Route::Whisper, &reply).segments.is_empty());
    assert!(read_body("{").is_err());
    assert_eq!(body("[1]").segments, None);
}

#[test]
fn the_rate_of_the_timing_goes_before_that_of_the_answer() {
    let with = |timing: Option<f64>, rate: Option<f64>| {
        let reply = RawReply {
            text: None,
            timing_rate: timing.map(f64::to_bits),
            rate: rate.map(f64::to_bits),
            segments: Some(vec![RawSegment {
                start: None,
                end: None,
                start_sample: Some(0.0f64.to_bits()),
                end_sample: Some(16_000.0f64.to_bits()),
                text: None,
            }]),
        };
        parse_audio_cpp_segments(&reply)[0].end_ms
    };
    assert_eq!(with(Some(8_000.0), Some(32_000.0)), 2_000);
    assert_eq!(with(None, Some(32_000.0)), 500);
    assert_eq!(with(None, None), 1_000);
    assert_eq!(with(Some(0.0), Some(32_000.0)), 1_000);
    assert_eq!(with(Some(-1.0), None), 1_000);
}

#[test]
fn engines_are_reached_by_their_names() {
    assert_eq!(route("parakeet"), Route::Parakeet);
    assert_eq!(route("audiocpp"), Route::AudioCpp);
    assert_eq!(route("gateway"), Route::Gateway);
    assert_eq!(route("whisper"), Route::Whisper);
    assert_eq!(route("Parakeet"), Route::Whisper);
    assert_eq!(
        resolve_engine(&Some(" audiocpp ".to_string()), &Some("gateway".to_string())),
        "audiocpp"
    );
    assert_eq!(resolve_engine(&None, &Some(" gateway ".to_string())), "gateway");
}

#[test]
fn uploads_say_what_the_servers_need() {
    assert_eq!(
        whisper_request("http://w", vec![1, 2], "a.wav".to_string()),
        Request::Upload {
            url: "http://w/inference".to_string(),
            field: "response_format".to_string(),
            value: "verbose_json".to_string(),
            filename: "a.wav".to_string(),
            bytes: vec![1, 2],
        }
    );
    assert_eq!(
        audio_cpp_request("http://a//", "m".to_string(), vec![3], "b.wav".to_string()),
        Request::Upload {
            url: "http://a/v1/audio/transcriptions".to_string(),
            field: "model".to_string(),
            value: "m".to_string(),
            filename: "b.wav".to_string(),
            bytes: vec![3],
        }
    );
}

#[test]
fn audio_is_encoded_in_base64() {
    let file = |bytes: &[u8]| match gateway_request("u", Ok(String::new()), &no_env(), bytes) {
        Ok(Request::Slot { file, .. }) => file,
        other => panic!("unexpected {other:?}"),
    };
    assert_eq!(file(b""), "");
    assert_eq!(file(b"fakeaudio"), "ZmFrZWF1ZGlv");
    assert_eq!(file(&[251, 255]), "+/8=");
    assert_eq!(file(b"f"), "Zg==");
    assert_eq!(file(&[0, 16, 131, 255]), "ABCD/w==");
}

#[test]
fn failures_name_the_engine() {
    let why = || "x".to_string();
    let fail = |route: Route, outcome: Outcome| read_reply(route, "http://u", outcome).unwrap_err();
    assert_eq!(
        fail(Route::AudioCpp, Outcome::Unreachable(why())),
        "audio.cpp voice engine not reachable at http://u: x. Install + start `audiocpp` from the Store first."
    );
    assert_eq!(
        fail(Route::Whisper, Outcome::Unreachable(why())),
        "whisper voice engine not reachable at http://u: x. Install + start `whispercpp` from the Store first."
    );
    assert_eq!(
        fail(Route::Gateway, Outcome::Unreachable(why())),
        "gateway STT unreachable at http://u: x"
    );
    assert_eq!(
        fail(Route::AudioCpp, Outcome::Refused("500".to_string(), why())),
        "audio.cpp returned 500: x"
    );
    assert_eq!(
        fail(Route::AudioCpp, Outcome::Unparsable(why())),
        "could not parse audio.cpp response: x"
    );
}

#[test]
fn a_sidecar_knows_its_environment() {
    let bare = SidecarSttHost {
        whisper_url: None,
        audio_cpp_url: None,
        audio_cpp_port: None,
        port_offset: None,
        gateway_url: None,
        gateway_token: None,
        model_dir: "/models/parakeet-v3".to_string(),
    };
    assert_eq!(bare.whisper_base_url(), "http://127.0.0.1:8090");
    assert_eq!(bare.audio_cpp_base_url(), "http://127.0.0.1:8086");
    assert_eq!(bare.audio_cpp_stt_model(), "ryu-audiocpp-stt");
    assert_eq!(bare.gateway_url(), "http://127.0.0.1:7981");
    assert_eq!(bare.gateway_bearer(), Ok("ryu-local".to_string()));
    assert_eq!(bare.parakeet_model_dir(), "/models/parakeet-v3");

    let mut set = bare.clone();
    set.port_offset = Some("10".to_string());
    assert_eq!(set.audio_cpp_base_url(), "http://127.0.0.1:8096");
    set.port_offset = Some("65000".to_string());
    assert_eq!(set.audio_cpp_base_url(), "http://127.0.0.1:65535");
    set.audio_cpp_port = Some(" 9999 ".to_string());
    assert_eq!(set.audio_cpp_base_url(), "http://127.0.0.1:9999");
    set.audio_cpp_url = Some(" http://a:1/ ".to_string());
    assert_eq!(set.audio_cpp_base_url(), "http://a:1");
    set.whisper_url = Some("http://w".to_string());
    assert_eq!(set.whisper_base_url(), "http://w");
    set.whisper_url = Some("  ".to_string());
    assert_eq!(set.whisper_base_url(), "http://127.0.0.1:8090");
    set.gateway_url = Some("http://g///".to_string());
    assert_eq!(set.gateway_url(), "http://g");
    set.gateway_token = Some(" t ".to_string());
    assert_eq!(set.gateway_bearer(), Ok("t".to_string()));
}

#[test]
fn ports_are_read_as_numbers() {
    assert_eq!(port_of(&Some(" 80 ".to_string())), Some(80));
    assert_eq!(port_of(&Some("+80".to_string())), Some(80));
    assert_eq!(port_of(&Some("65536".to_string())), None);
    assert_eq!(port_of(&Some("-1".to_string())), None);
    assert_eq!(port_of(&Some(String::new())), None);
    assert_eq!(port_of(&None), None);
}
