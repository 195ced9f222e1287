//! Speech-to-text: which engine is asked, what it is sent, and what its answer means.
//!
//! Four engines stand behind one dispatch. Parakeet runs in the process where it was built
//! in. Whisper and audio.cpp are local servers that take a file upload. The gateway routes to
//! a provider in the cloud and takes the audio as text.

use crate::double;
use crate::json;
use crate::text;
use crate::translate;
use vstd::prelude::*;
use vstd::slice::slice_to_vec;

verus! {

/// The local whisper.cpp server.
pub const DEFAULT_WHISPER_URL: &'static str = "http://127.0.0.1:8090";

/// The port of the local audio.cpp server.
pub const AUDIO_CPP_PORT: u16 = 8086;

/// One stretch of speech with its place in the audio that was transcribed.
#[derive(Debug, Clone, PartialEq, Eq)]
pub struct TranscriptSegment {
    pub start_ms: u64,
    pub end_ms: u64,
    pub text: String,
}

impl Default for TranscriptSegment {
    fn default() -> (r: Self)
        ensures
            r.start_ms == 0,
            r.end_ms == 0,
            r.text@.len() == 0,
    {
        TranscriptSegment { start_ms: 0, end_ms: 0, text: String::new() }
    }
}

/// A transcription: the whole text, and the segments where the engine returned them.
#[derive(Debug, Clone, PartialEq, Eq)]
pub struct Transcription {
    pub text: String,
    pub segments: Vec<TranscriptSegment>,
}

impl Default for Transcription {
    fn default() -> (r: Self)
        ensures
            r.text@.len() == 0,
            r.segments@.len() == 0,
    {
        Transcription { text: String::new(), segments: Vec::new() }
    }
}

/// A segment as a mathematical value: when it starts, when it ends, what is said.
pub open spec fn segment_view(s: TranscriptSegment) -> (u64, u64, Seq<char>) {
    (s.start_ms, s.end_ms, s.text@)
}

/// Segments as mathematical values.
pub open spec fn segment_views(segments: Seq<TranscriptSegment>) -> Seq<(u64, u64, Seq<char>)> {
    segments.map_values(|s: TranscriptSegment| segment_view(s))
}

/// A segment of an engine's answer, as plain values: nothing for what is missing or of another
/// kind. Numbers are kept as the bits of a binary floating point number of 64 bits.
#[derive(Debug, Clone, PartialEq, Eq)]
pub struct RawSegment {
    /// When it starts and ends, in seconds.
    pub start: Option<u64>,
    pub end: Option<u64>,
    /// When it starts and ends, in samples.
    pub start_sample: Option<u64>,
    pub end_sample: Option<u64>,
    pub text: Option<String>,
}

/// A segment of an engine's answer as a mathematical value.
#[verifier::ext_equal]
pub struct RawSegmentView {
    pub start: Option<u64>,
    pub end: Option<u64>,
    pub start_sample: Option<u64>,
    pub end_sample: Option<u64>,
    pub text: Option<Seq<char>>,
}

impl View for RawSegment {
    type V = RawSegmentView;

    open spec fn view(&self) -> RawSegmentView {
        RawSegmentView {
            start: self.start,
            end: self.end,
            start_sample: self.start_sample,
            end_sample: self.end_sample,
            text: text::opt(self.text),
        }
    }
}

/// Segments of an answer as mathematical values.
pub open spec fn raw_views(list: Seq<RawSegment>) -> Seq<RawSegmentView> {
    list.map_values(|s: RawSegment| s@)
}

/// An engine's answer, as plain values.
#[derive(Debug, Clone, PartialEq, Eq)]
pub struct RawReply {
    pub text: Option<String>,
    /// How many samples a second has, beside the timing of the answer and in the answer itself.
    pub timing_rate: Option<u64>,
    pub rate: Option<u64>,
    pub segments: Option<Vec<RawSegment>>,
}

/// An engine's answer as a mathematical value.
#[verifier::ext_equal]
pub struct RawReplyView {
    pub text: Option<Seq<char>>,
    pub timing_rate: Option<u64>,
    pub rate: Option<u64>,
    pub segments: Option<Seq<RawSegmentView>>,
}

impl View for RawReply {
    type V = RawReplyView;

    open spec fn view(&self) -> RawReplyView {
        RawReplyView {
            text: text::opt(self.text),
            timing_rate: self.timing_rate,
            rate: self.rate,
            segments: match self.segments {
                Some(list) => Some(raw_views(list@)),
                None => None,
            },
        }
    }
}

/// The place of a field of a segment in the JSON text of an answer.
pub open spec fn field_pointer(i: nat, field: Seq<char>) -> Seq<char> {
    "/segments/"@ + text::decimal(i) + field
}

fn field_pointer_of(i: usize, field: &str) -> (r: String)
    ensures
        r@ == field_pointer(i as nat, field@),
{
    let mut out = text::chars_of("/segments/");
    text::append(&mut out, text::decimal_of(i as u64).as_slice());
    text::append_str(&mut out, field);
    text::string_of(out.as_slice())
}

/// The segment `i` in the JSON text of an answer.
pub open spec fn segment_in(body: Seq<char>, i: nat) -> RawSegmentView {
    RawSegmentView {
        start: json::json_number(body, field_pointer(i, "/start"@)),
        end: json::json_number(body, field_pointer(i, "/end"@)),
        start_sample: json::json_number(body, field_pointer(i, "/start_sample"@)),
        end_sample: json::json_number(body, field_pointer(i, "/end_sample"@)),
        text: json::json_text(body, field_pointer(i, "/text"@)),
    }
}

/// What the JSON text of an answer holds.
pub open spec fn reply_in(body: Seq<char>) -> RawReplyView {
    RawReplyView {
        text: json::json_text(body, "/text"@),
        timing_rate: json::json_number(body, "/timing/sample_rate"@),
        rate: json::json_number(body, "/sample_rate"@),
        segments: match json::json_count(body, "/segments"@) {
            Some(n) => Some(Seq::new(n as nat, |i: int| segment_in(body, i as nat))),
            None => None,
        },
    }
}

/// Reads the JSON text of an answer, or says why it is no JSON.
pub fn read_body(body: &str) -> (r: Result<RawReply, String>)
    ensures
        match r {
            Ok(raw) => json::json_fault(body@) is None && raw@ == reply_in(body@),
            Err(e) => json::json_fault(body@) == Some(e@),
        },
{
    if let Some(e) = json::fault_of(body) {
        return Err(e);
    }
    let segments: Option<Vec<RawSegment>> = match json::count_at(body, "/segments") {
        None => None,
        Some(n) => {
            let mut list: Vec<RawSegment> = Vec::new();
            let mut i: usize = 0;
            while i < n
                invariant
                    i <= n,
                    raw_views(list@) == Seq::new(i as nat, |j: int| segment_in(body@, j as nat)),
                decreases n - i,
            {
                let ghost before = raw_views(list@);
                let segment = RawSegment {
                    start: json::number_at(body, &field_pointer_of(i, "/start")),
                    end: json::number_at(body, &field_pointer_of(i, "/end")),
                    start_sample: json::number_at(body, &field_pointer_of(i, "/start_sample")),
                    end_sample: json::number_at(body, &field_pointer_of(i, "/end_sample")),
                    text: json::text_at(body, &field_pointer_of(i, "/text")),
                };
                assert(segment@ == segment_in(body@, i as nat));
                list.push(segment);
                assert(raw_views(list@) =~= before.push(segment@));
                i += 1;
                assert(raw_views(list@) =~= Seq::new(
                    i as nat,
                    |j: int| segment_in(body@, j as nat),
                ));
            }
            Some(list)
        },
    };
    let raw = RawReply {
        text: json::text_at(body, "/text"),
        timing_rate: json::number_at(body, "/timing/sample_rate"),
        rate: json::number_at(body, "/sample_rate"),
        segments,
    };
    assert(raw@ =~= reply_in(body@));
    Ok(raw)
}

/// What an optional text says, without whitespace around it.
pub open spec fn trimmed_or_empty(s: Option<Seq<char>>) -> Seq<char> {
    match s {
        Some(t) => text::trim(t),
        None => seq![],
    }
}

fn trimmed_or_empty_of(s: &Option<String>) -> (r: String)
    ensures
        r@ == trimmed_or_empty(text::opt(*s)),
{
    match s {
        Some(t) => text::string_of(text::trimmed(t).as_slice()),
        None => String::new(),
    }
}

/// How many samples a second has: what the timing says, or else the answer itself, if it is
/// more than zero; 16000 where neither says it.
pub open spec fn sample_rate(reply: RawReplyView) -> u64 {
    let said = if reply.timing_rate is Some {
        reply.timing_rate
    } else {
        reply.rate
    };
    match said {
        Some(rate) if double::positive(rate) => rate,
        _ => double::SIXTEEN_THOUSAND,
    }
}

fn sample_rate_of(reply: &RawReply) -> (r: u64)
    ensures
        r == sample_rate(reply@),
        double::positive(r),
{
    let said: Option<u64> = match reply.timing_rate {
        Some(rate) => Some(rate),
        None => reply.rate,
    };
    match said {
        Some(rate) => if double::is_positive(rate) {
            rate
        } else {
            double::SIXTEEN_THOUSAND
        },
        None => double::SIXTEEN_THOUSAND,
    }
}

/// When a segment starts and ends, in milliseconds: as its seconds say or, where samples count
/// too, failing that as its samples say. One that has neither pair has no times.
pub open spec fn times(s: RawSegmentView, rate: Option<u64>) -> Option<(u64, u64)> {
    match (s.start, s.end) {
        (Some(a), Some(b)) => Some((double::whole_ms(a) as u64, double::whole_ms(b) as u64)),
        _ => match (rate, s.start_sample, s.end_sample) {
            (Some(per), Some(a), Some(b)) => Some(
                (double::whole_ms_at(a, per) as u64, double::whole_ms_at(b, per) as u64),
            ),
            _ => None,
        },
    }
}

fn times_of(s: &RawSegment, rate: Option<u64>) -> (r: Option<(u64, u64)>)
    requires
        rate matches Some(per) ==> double::positive(per),
    ensures
        r == times(s@, rate),
{
    match (s.start, s.end) {
        (Some(a), Some(b)) => Some((double::milliseconds(a), double::milliseconds(b))),
        _ => match (rate, s.start_sample, s.end_sample) {
            (Some(per), Some(a), Some(b)) => Some(
                (double::milliseconds_at(a, per), double::milliseconds_at(b, per)),
            ),
            _ => None,
        },
    }
}

/// The segments of an answer that have times. The others are passed over.
pub open spec fn timed(raw: Seq<RawSegmentView>, rate: Option<u64>) -> Seq<(u64, u64, Seq<char>)>
    decreases raw.len(),
{
    if raw.len() == 0 {
        seq![]
    } else {
        let before = timed(raw.drop_last(), rate);
        match times(raw.last(), rate) {
            Some((start, end)) => before.push((start, end, trimmed_or_empty(raw.last().text))),
            None => before,
        }
    }
}

/// The segments of an answer that may have none.
pub open spec fn timed_in(reply: RawReplyView, rate: Option<u64>) -> Seq<(u64, u64, Seq<char>)> {
    match reply.segments {
        Some(list) => timed(list, rate),
        None => seq![],
    }
}

fn timed_of(raw: &RawReply, rate: Option<u64>) -> (r: Vec<TranscriptSegment>)
    requires
        rate matches Some(per) ==> double::positive(per),
    ensures
        segment_views(r@) == timed_in(raw@, rate),
{
    let mut out: Vec<TranscriptSegment> = Vec::new();
    assert(segment_views(out@) =~= seq![]);
    if let Some(list) = &raw.segments {
        let ghost all = raw_views(list@);
        let mut i: usize = 0;
        assert(all.take(0) =~= seq![]);
        while i < list.len()
            invariant
                i <= list@.len(),
                all == raw_views(list@),
                rate matches Some(per) ==> double::positive(per),
                segment_views(out@) == timed(all.take(i as int), rate),
            decreases list@.len() - i,
        {
            assert(all.take(i + 1).drop_last() =~= all.take(i as int));
            let s = &list[i];
            assert(all.take(i + 1).last() == s@);
            if let Some((start_ms, end_ms)) = times_of(s, rate) {
                let ghost before = segment_views(out@);
                let segment = TranscriptSegment {
                    start_ms,
                    end_ms,
                    text: trimmed_or_empty_of(&s.text),
                };
                out.push(segment);
                assert(segment_views(out@) =~= before.push(segment_view(segment)));
            }
            i += 1;
        }
        assert(all.take(i as int) =~= all);
    }
    out
}

/// The segments of an answer timed in seconds. A missing or malformed list yields none.
pub fn parse_verbose_segments(raw: &RawReply) -> (r: Vec<TranscriptSegment>)
    ensures
        segment_views(r@) == timed_in(raw@, None),
{
    timed_of(raw, None)
}

/// The segments of an answer timed in seconds or in samples. Where both are given, the
/// seconds are preferred: they are already normalized.
pub fn parse_audio_cpp_segments(raw: &RawReply) -> (r: Vec<TranscriptSegment>)
    ensures
        segment_views(r@) == timed_in(raw@, Some(sample_rate(raw@))),
{
    timed_of(raw, Some(sample_rate_of(raw)))
}

/// What the environment says about engines.
#[derive(Debug, Clone, PartialEq, Eq)]
pub struct EngineEnv {
    /// The engine for every surface.
    pub engine: Option<String>,
    /// The provider behind the gateway.
    pub gateway_provider: Option<String>,
    /// The model behind the gateway.
    pub gateway_model: Option<String>,
}

/// The engine when nobody named one: what the environment says, or whisper, which every build
/// has.
pub open spec fn default_engine(env: Option<Seq<char>>) -> Seq<char> {
    match text::given(env) {
        Some(e) => e,
        None => "whisper"@,
    }
}

/// The engine when nobody named one.
pub fn default_stt_engine(env: &Option<String>) -> (r: String)
    ensures
        r@ == default_engine(text::opt(*env)),
{
    match text::given_of(env) {
        Some(e) => e,
        None => "whisper".to_string(),
    }
}

/// The engine that is asked: the one that was named, or the default.
pub open spec fn resolved_engine(named: Option<Seq<char>>, env: Option<Seq<char>>) -> Seq<char> {
    match text::given(named) {
        Some(e) => e,
        None => default_engine(env),
    }
}

/// The engine that is asked.
pub fn resolve_engine(named: &Option<String>, env: &Option<String>) -> (r: String)
    ensures
        r@ == resolved_engine(text::opt(*named), text::opt(*env)),
{
    match text::given_of(named) {
        Some(e) => e,
        None => default_stt_engine(env),
    }
}

/// An engine that is named is the one that is asked: nothing in the environment puts another
/// one in its place.
pub proof fn a_named_engine_is_honoured(named: Seq<char>, env: Option<Seq<char>>)
    requires
        text::trim(named).len() > 0,
    ensures
        resolved_engine(Some(named), env) == text::trim(named),
{
}

/// The way to an engine.
#[derive(Debug, Clone, Copy, PartialEq, Eq, Structural)]
pub enum Route {
    Parakeet,
    AudioCpp,
    Gateway,
    Whisper,
}

/// The way to the engine of a name. A name that is not known means whisper.
pub open spec fn route_of(engine: Seq<char>) -> Route {
    if engine == "parakeet"@ {
        Route::Parakeet
    } else if engine == "audiocpp"@ {
        Route::AudioCpp
    } else if engine == "gateway"@ {
        Route::Gateway
    } else {
        Route::Whisper
    }
}

/// The way to the engine of a name.
pub fn route(engine: &str) -> (r: Route)
    ensures
        r == route_of(engine@),
{
    if text::same_text(engine, "parakeet") {
        Route::Parakeet
    } else if text::same_text(engine, "audiocpp") {
        Route::AudioCpp
    } else if text::same_text(engine, "gateway") {
        Route::Gateway
    } else {
        Route::Whisper
    }
}

/// What is sent to an engine.
#[derive(Debug, Clone, PartialEq, Eq)]
pub enum Request {
    /// A file upload with one more field.
    Upload { url: String, field: String, value: String, filename: String, bytes: Vec<u8> },
    /// Audio as text, with the slot that the gateway routes it to.
    Slot {
        url: String,
        bearer: String,
        provider: String,
        model: String,
        file: String,
        response_format: String,
    },
}

/// An address without slashes at its end, with a path behind it.
pub open spec fn joined(base: Seq<char>, path: Seq<char>) -> Seq<char> {
    text::without_end(base, '/') + path
}

fn joined_of(base: &str, path: &str) -> (r: String)
    ensures
        r@ == joined(base@, path@),
{
    let cs = text::chars_of(base);
    let mut out = slice_to_vec(text::without_end_of(cs.as_slice(), '/'));
    text::append_str(&mut out, path);
    text::string_of(out.as_slice())
}

/// The upload to whisper. It is asked for the timings of each segment.
pub fn whisper_request(base: &str, bytes: Vec<u8>, filename: String) -> (r: Request)
    ensures
        whisper_upload(r, base@, bytes@, filename@),
{
    Request::Upload {
        url: text::concat(base, "/inference"),
        field: "response_format".to_string(),
        value: "verbose_json".to_string(),
        filename,
        bytes,
    }
}

/// The upload to audio.cpp. It is told which model to use.
pub fn audio_cpp_request(base: &str, model: String, bytes: Vec<u8>, filename: String) -> (r: Request)
    ensures
        audio_cpp_upload(r, base@, model@, bytes@, filename@),
{
    Request::Upload {
        url: joined_of(base, "/v1/audio/transcriptions"),
        field: "model".to_string(),
        value: model,
        filename,
        bytes,
    }
}

/// The character that stands for six bits in the standard base64 alphabet.
pub open spec fn base64_char(n: int) -> char {
    if n < 26 {
        ('A' as int + n) as char
    } else if n < 52 {
        ('a' as int + n - 26) as char
    } else if n < 62 {
        ('0' as int + n - 52) as char
    } else if n == 62 {
        '+'
    } else {
        '/'
    }
}

/// Bytes in base64: three bytes are four characters of six bits, and a last group that is
/// not full is padded with `=`.
pub open spec fn base64_text(bytes: Seq<u8>) -> Seq<char>
    decreases bytes.len(),
{
    let a = bytes[0] as int;
    let b = bytes[1] as int;
    let c = bytes[2] as int;
    if bytes.len() == 0 {
        seq![]
    } else if bytes.len() == 1 {
        seq![base64_char(a / 4), base64_char(a % 4 * 16), '=', '=']
    } else if bytes.len() == 2 {
        seq![
            base64_char(a / 4),
            base64_char(a % 4 * 16 + b / 16),
            base64_char(b % 16 * 4),
            '=',
        ]
    } else {
        seq![
            base64_char(a / 4),
            base64_char(a % 4 * 16 + b / 16),
            base64_char(b % 16 * 4 + c / 64),
            base64_char(c % 64),
        ] + base64_text(bytes.skip(3))
    }
}

/// Encodes bytes with the `STANDARD` engine of the `base64` crate: the standard alphabet, with
/// padding. The encoder panics where the characters, four for every three bytes begun, cannot
/// be counted.
#[verifier::external_body]
fn base64_of(bytes: &[u8]) -> (r: String)
    requires
        (bytes@.len() + 2) / 3 * 4 <= usize::MAX,
    ensures
        r@ == base64_text(bytes@),
{
    base64::Engine::encode(&base64::engine::general_purpose::STANDARD, bytes)
}

/// The provider behind the gateway.
pub open spec fn slot_provider(env: Option<Seq<char>>) -> Seq<char> {
    match text::given(env) {
        Some(p) => p,
        None => "openai"@,
    }
}

/// The model behind the gateway.
pub open spec fn slot_model(env: Option<Seq<char>>) -> Seq<char> {
    match text::given(env) {
        Some(m) => m,
        None => "whisper-large-v3"@,
    }
}

/// The request to the gateway: the audio as text, and the slot to route it to. Only the
/// gateway's own bearer is presented, never a key of a provider; without one nothing is sent.
pub fn gateway_request(
    base: &str,
    bearer: Result<String, String>,
    env: &EngineEnv,
    bytes: &[u8],
) -> (r: Result<Request, String>)
    requires
        (bytes@.len() + 2) / 3 * 4 <= usize::MAX,
    ensures
        match bearer {
            Err(e) => r == Err::<Request, String>(e),
            Ok(token) => r matches Ok(request) && gateway_slot(
                request,
                base@,
                token@,
                *env,
                bytes@,
            ),
        },
{
    let file = base64_of(bytes);
    let provider = match text::given_of(&env.gateway_provider) {
        Some(p) => p,
        None => "openai".to_string(),
    };
    let model = match text::given_of(&env.gateway_model) {
        Some(m) => m,
        None => "whisper-large-v3".to_string(),
    };
    let url = joined_of(base, "/v1/audio/transcriptions");
    match bearer {
        Err(e) => Err(e),
        Ok(token) => Ok(
            Request::Slot {
                url,
                bearer: token,
                provider,
                model,
                file,
                response_format: "verbose_json".to_string(),
            },
        ),
    }
}

/// How sending a request went.
#[derive(Debug, Clone, PartialEq, Eq)]
pub enum Outcome {
    /// Nobody answered; why.
    Unreachable(String),
    /// The engine refused; the status and the body.
    Refused(String, String),
    /// The answer was no text; why.
    Unparsable(String),
    /// The engine answered; the body.
    Answered(String),
}

/// What the user is told when nobody answered.
pub open spec fn unreachable_text(route: Route, url: Seq<char>, why: Seq<char>) -> Seq<char> {
    match route {
        Route::AudioCpp => "audio.cpp voice engine not reachable at "@ + url + ": "@ + why
            + ". Install + start `audiocpp` from the Store first."@,
        Route::Gateway => "gateway STT unreachable at "@ + url + ": "@ + why,
        _ => "whisper voice engine not reachable at "@ + url + ": "@ + why
            + ". Install + start `whispercpp` from the Store first."@,
    }
}

/// What the user is told when the engine refused.
pub open spec fn refused_text(route: Route, status: Seq<char>, body: Seq<char>) -> Seq<char> {
    match route {
        Route::AudioCpp => "audio.cpp returned "@ + status + ": "@ + body,
        Route::Gateway => "gateway STT returned "@ + status + ": "@ + body,
        _ => "whisper returned "@ + status + ": "@ + body,
    }
}

/// What the user is told when the answer made no sense.
pub open spec fn unparsable_text(route: Route, why: Seq<char>) -> Seq<char> {
    match route {
        Route::AudioCpp => "could not parse audio.cpp response: "@ + why,
        Route::Gateway => "could not parse gateway STT response: "@ + why,
        _ => "could not parse whisper response: "@ + why,
    }
}

/// What the plain values of an engine's answer mean.
pub open spec fn understood(route: Route, raw: RawReplyView) -> (Seq<char>, Seq<(u64, u64, Seq<char>)>) {
    (
        trimmed_or_empty(raw.text),
        timed_in(
            raw,
            if route == Route::AudioCpp {
                Some(sample_rate(raw))
            } else {
                None
            },
        ),
    )
}

/// What the plain values of an engine's answer mean.
pub fn understand(route: Route, raw: &RawReply) -> (r: Transcription)
    ensures
        (r.text@, segment_views(r.segments@)) == understood(route, raw@),
{
    let segments = match route {
        Route::AudioCpp => parse_audio_cpp_segments(raw),
        _ => parse_verbose_segments(raw),
    };
    Transcription { text: trimmed_or_empty_of(&raw.text), segments }
}

/// What an engine's answer means.
pub fn read_reply(route: Route, url: &str, outcome: Outcome) -> (r: Result<Transcription, String>)
    ensures
        match outcome {
            Outcome::Unreachable(why) => r matches Err(e) && e@ == unreachable_text(
                route,
                url@,
                why@,
            ),
            Outcome::Refused(status, body) => r matches Err(e) && e@ == refused_text(
                route,
                status@,
                body@,
            ),
            Outcome::Unparsable(why) => r matches Err(e) && e@ == unparsable_text(route, why@),
            Outcome::Answered(body) => match json::json_fault(body@) {
                Some(why) => r matches Err(e) && e@ == unparsable_text(route, why),
                None => r matches Ok(t) && (t.text@, segment_views(t.segments@)) == understood(
                    route,
                    reply_in(body@),
                ),
            },
        },
{
    match outcome {
        Outcome::Unreachable(why) => {
            let head = match route {
                Route::AudioCpp => "audio.cpp voice engine not reachable at ",
                Route::Gateway => "gateway STT unreachable at ",
                _ => "whisper voice engine not reachable at ",
            };
            let mut out = text::chars_of(head);
            text::append_str(&mut out, url);
            text::append_str(&mut out, ": ");
            text::append_str(&mut out, &why);
            match route {
                Route::AudioCpp => text::append_str(
                    &mut out,
                    ". Install + start `audiocpp` from the Store first.",
                ),
                Route::Gateway => {},
                _ => text::append_str(
                    &mut out,
                    ". Install + start `whispercpp` from the Store first.",
                ),
            }
            Err(text::string_of(out.as_slice()))
        },
        Outcome::Refused(status, body) => {
            let head = match route {
                Route::AudioCpp => "audio.cpp returned ",
                Route::Gateway => "gateway STT returned ",
                _ => "whisper returned ",
            };
            let mut out = text::chars_of(head);
            text::append_str(&mut out, &status);
            text::append_str(&mut out, ": ");
            text::append_str(&mut out, &body);
            Err(text::string_of(out.as_slice()))
        },
        Outcome::Unparsable(why) => Err(unparsable_message(route, &why)),
        Outcome::Answered(body) => match read_body(&body) {
            Ok(raw) => Ok(understand(route, &raw)),
            Err(why) => Err(unparsable_message(route, &why)),
        },
    }
}

fn unparsable_message(route: Route, why: &str) -> (r: String)
    ensures
        r@ == unparsable_text(route, why@),
{
    let head = match route {
        Route::AudioCpp => "could not parse audio.cpp response: ",
        Route::Gateway => "could not parse gateway STT response: ",
        _ => "could not parse whisper response: ",
    };
    text::concat(head, why)
}

/// What the user is told when Parakeet failed.
pub open spec fn parakeet_failure(why: Seq<char>) -> Seq<char> {
    "parakeet transcription failed: "@ + why
}

/// What Parakeet's answer means: text alone, without segments.
pub fn read_parakeet(answer: Result<String, String>) -> (r: Result<Transcription, String>)
    ensures
        match answer {
            Ok(t) => r matches Ok(u) && u.text == t && u.segments@.len() == 0,
            Err(why) => r matches Err(e) && e@ == parakeet_failure(why@),
        },
{
    match answer {
        Ok(t) => Ok(Transcription { text: t, segments: Vec::new() }),
        Err(why) => Err(text::concat("parakeet transcription failed: ", &why)),
    }
}

/// The text of a transcription, without its segments.
pub fn text_only(answer: Result<Transcription, String>) -> (r: Result<String, String>)
    ensures
        match answer {
            Ok(t) => r == Ok::<String, String>(t.text),
            Err(e) => r == Err::<String, String>(e),
        },
{
    match answer {
        Ok(t) => Ok(t.text),
        Err(e) => Err(e),
    }
}

/// What only the host knows: where the servers are, what to present to the gateway, and where
/// the Parakeet model is.
pub trait SttHost {
    /// Address of the local whisper.cpp server.
    fn whisper_base_url(&self) -> (r: String);

    /// Address of the local audio.cpp server.
    fn audio_cpp_base_url(&self) -> (r: String)
        default_ensures
            r@ == "http://127.0.0.1:8086"@,
    {
        "http://127.0.0.1:8086".to_string()
    }

    /// The model that the local audio.cpp server is configured with.
    fn audio_cpp_stt_model(&self) -> (r: String)
        default_ensures
            r@ == "ryu-audiocpp-stt"@,
    {
        "ryu-audiocpp-stt".to_string()
    }

    /// Address of the gateway.
    fn gateway_url(&self) -> (r: String);

    /// The bearer for the gateway, never a key of a provider.
    fn gateway_bearer(&self) -> (r: Result<String, String>);

    /// Where the Parakeet model is.
    fn parakeet_model_dir(&self) -> (r: String);
}

/// What is done to transcribe audio: the engine in the process is run, or a request is sent.
#[derive(Debug, Clone, PartialEq, Eq)]
pub enum Plan {
    /// Run the engine in the process on these bytes, with the model in this directory.
    Run { bytes: Vec<u8>, model_dir: String },
    /// Send this request.
    Send { route: Route, request: Request },
}

/// Whether a request is the upload to whisper at `base`.
pub open spec fn whisper_upload(
    request: Request,
    base: Seq<char>,
    bytes: Seq<u8>,
    filename: Seq<char>,
) -> bool {
    request matches Request::Upload { url, field, value, filename: f, bytes: b } && url@ == base
        + "/inference"@ && field@ == "response_format"@ && value@ == "verbose_json"@ && f@
        == filename && b@ == bytes
}

/// Whether a request is the upload to audio.cpp at `base`, for a model of it.
pub open spec fn audio_cpp_upload(
    request: Request,
    base: Seq<char>,
    model: Seq<char>,
    bytes: Seq<u8>,
    filename: Seq<char>,
) -> bool {
    request matches Request::Upload { url, field, value, filename: f, bytes: b } && url@ == joined(
        base,
        "/v1/audio/transcriptions"@,
    ) && field@ == "model"@ && value@ == model && f@ == filename && b@ == bytes
}

/// Whether a request is the one to the gateway at `base`.
pub open spec fn gateway_slot(
    request: Request,
    base: Seq<char>,
    token: Seq<char>,
    env: EngineEnv,
    bytes: Seq<u8>,
) -> bool {
    request matches Request::Slot { url, bearer, provider, model, file, response_format } && url@
        == joined(base, "/v1/audio/transcriptions"@) && bearer@ == token && provider@
        == slot_provider(text::opt(env.gateway_provider)) && model@ == slot_model(
        text::opt(env.gateway_model),
    ) && file@ == base64_text(bytes) && response_format@ == "verbose_json"@
}

/// Whether a plan is the one for `bytes` with an engine, given what the host may say of it.
pub open spec fn planned<H: SttHost>(
    host: &H,
    wanted: Route,
    env: EngineEnv,
    bytes: Seq<u8>,
    filename: Seq<char>,
    plan: Result<Plan, String>,
) -> bool {
    match wanted {
        Route::Parakeet => plan matches Ok(Plan::Run { bytes: b, model_dir }) && b@ == bytes
            && call_ensures(H::parakeet_model_dir, (host,), model_dir),
        Route::AudioCpp => plan matches Ok(Plan::Send { route, request }) && route == wanted
            && exists|base: String, model: String|
            {
                &&& #[trigger] call_ensures(H::audio_cpp_base_url, (host,), base)
                &&& #[trigger] call_ensures(H::audio_cpp_stt_model, (host,), model)
                &&& audio_cpp_upload(request, base@, model@, bytes, filename)
            },
        Route::Gateway => match plan {
            Err(e) => call_ensures(H::gateway_bearer, (host,), Err::<String, String>(e)),
            Ok(Plan::Run { .. }) => false,
            Ok(Plan::Send { route, request }) => route == wanted && exists|
                base: String,
                token: String,
            |
                {
                    &&& #[trigger] call_ensures(H::gateway_url, (host,), base)
                    &&& #[trigger] call_ensures(
                        H::gateway_bearer,
                        (host,),
                        Ok::<String, String>(token),
                    )
                    &&& gateway_slot(request, base@, token@, env, bytes)
                },
        },
        Route::Whisper => plan matches Ok(Plan::Send { route, request }) && route == wanted
            && exists|base: String|
            {
                &&& #[trigger] call_ensures(H::whisper_base_url, (host,), base)
                &&& whisper_upload(request, base@, bytes, filename)
            },
    }
}

/// Plans a transcription: the engine that was named, or the default, with what the host knows
/// about it. Nothing is sent where the host has no bearer for the gateway.
pub fn plan_transcription<H: SttHost>(
    host: &H,
    engine: &Option<String>,
    env: &EngineEnv,
    bytes: Vec<u8>,
    filename: String,
) -> (r: Result<Plan, String>)
    requires
        (bytes@.len() + 2) / 3 * 4 <= usize::MAX,
    ensures
        planned(
            host,
            route_of(resolved_engine(text::opt(*engine), text::opt(env.engine))),
            *env,
            bytes@,
            filename@,
            r,
        ),
{
    let name = resolve_engine(engine, &env.engine);
    let wanted = route(&name);
    match wanted {
        Route::Parakeet => Ok(Plan::Run { bytes, model_dir: host.parakeet_model_dir() }),
        Route::AudioCpp => {
            let base = host.audio_cpp_base_url();
            let model = host.audio_cpp_stt_model();
            let ghost asked = model;
            let request = audio_cpp_request(&base, model, bytes, filename);
            assert(call_ensures(H::audio_cpp_base_url, (host,), base));
            assert(call_ensures(H::audio_cpp_stt_model, (host,), asked));
            Ok(Plan::Send { route: wanted, request })
        },
        Route::Gateway => {
            let base = host.gateway_url();
            let bearer = host.gateway_bearer();
            let ghost answered = bearer;
            match gateway_request(&base, bearer, env, bytes.as_slice()) {
                Ok(request) => {
                    assert(call_ensures(H::gateway_url, (host,), base));
                    assert(call_ensures(H::gateway_bearer, (host,), answered));
                    Ok(Plan::Send { route: wanted, request })
                },
                Err(e) => Err(e),
            }
        },
        Route::Whisper => {
            let base = host.whisper_base_url();
            let request = whisper_request(&base, bytes, filename);
            assert(call_ensures(H::whisper_base_url, (host,), base));
            Ok(Plan::Send { route: wanted, request })
        },
    }
}

/// A host that knows what its environment says.
#[derive(Debug, Clone, PartialEq, Eq)]
pub struct SidecarSttHost {
    pub whisper_url: Option<String>,
    pub audio_cpp_url: Option<String>,
    pub audio_cpp_port: Option<String>,
    pub port_offset: Option<String>,
    pub gateway_url: Option<String>,
    pub gateway_token: Option<String>,
    pub model_dir: String,
}

/// The port number that a setting names, if it names one.
pub open spec fn port_in(s: Option<Seq<char>>) -> Option<nat> {
    match s {
        Some(t) => text::number(text::trim(t), u16::MAX as nat),
        None => None,
    }
}

/// The port number that a setting names, if it names one.
pub fn port_of(s: &Option<String>) -> (r: Option<u16>)
    ensures
        match r {
            Some(p) => port_in(text::opt(*s)) == Some(p as nat),
            None => port_in(text::opt(*s)) is None,
        },
{
    match s {
        None => None,
        Some(t) => {
            let cs = text::trimmed(t);
            match text::number_of(cs.as_slice()) {
                Some(n) => if n <= 65535 {
                    Some(n as u16)
                } else {
                    None
                },
                None => None,
            }
        },
    }
}

/// The port of the local audio.cpp server: the one that is set, or the usual one moved by the
/// offset of this node, no further than ports go.
pub open spec fn audio_cpp_port(port: Option<Seq<char>>, offset: Option<Seq<char>>) -> nat {
    match port_in(port) {
        Some(p) => p,
        None => {
            let by = match port_in(offset) {
                Some(o) => o,
                None => 0,
            };
            if AUDIO_CPP_PORT + by > u16::MAX {
                u16::MAX as nat
            } else {
                (AUDIO_CPP_PORT + by) as nat
            }
        },
    }
}

impl SttHost for SidecarSttHost {
    fn whisper_base_url(&self) -> (r: String)
        ensures
            r@ == match self.whisper_url {
                Some(u) if text::trim(u@).len() > 0 => u@,
                _ => DEFAULT_WHISPER_URL@,
            },
    {
        match &self.whisper_url {
            Some(u) => {
                if text::trimmed(u).len() > 0 {
                    u.clone()
                } else {
                    DEFAULT_WHISPER_URL.to_string()
                }
            },
            None => DEFAULT_WHISPER_URL.to_string(),
        }
    }

    fn audio_cpp_base_url(&self) -> (r: String)
        ensures
            r@ == match self.audio_cpp_url {
                Some(u) if text::without_end(text::trim(u@), '/').len() > 0 => text::without_end(
                    text::trim(u@),
                    '/',
                ),
                _ => "http://127.0.0.1:"@ + text::decimal(
                    audio_cpp_port(text::opt(self.audio_cpp_port), text::opt(self.port_offset)),
                ),
            },
    {
        if let Some(u) = &self.audio_cpp_url {
            let t = text::trimmed(u);
            let v = text::without_end_of(t.as_slice(), '/');
            if v.len() > 0 {
                return text::string_of(v);
            }
        }
        let port: u16 = match port_of(&self.audio_cpp_port) {
            Some(p) => p,
            None => {
                let by: u16 = match port_of(&self.port_offset) {
                    Some(o) => o,
                    None => 0,
                };
                if by > u16::MAX - AUDIO_CPP_PORT {
                    u16::MAX
                } else {
                    AUDIO_CPP_PORT + by
                }
            },
        };
        let mut out = text::chars_of("http://127.0.0.1:");
        text::append(&mut out, text::decimal_of(port as u64).as_slice());
        text::string_of(out.as_slice())
    }

    fn gateway_url(&self) -> (r: String)
        ensures
            r@ == translate::gateway_url(text::opt(self.gateway_url)),
    {
        if let Some(u) = &self.gateway_url {
            let t = text::trimmed(u);
            let v = text::without_end_of(t.as_slice(), '/');
            if v.len() > 0 {
                return text::string_of(v);
            }
        }
        translate::DEFAULT_GATEWAY_URL.to_string()
    }

    fn gateway_bearer(&self) -> (r: Result<String, String>)
        ensures
            r matches Ok(t) && t@ == match text::given(text::opt(self.gateway_token)) {
                Some(g) => g,
                None => "ryu-local"@,
            },
    {
        match text::given_of(&self.gateway_token) {
            Some(t) => Ok(t),
            None => Ok("ryu-local".to_string()),
        }
    }

    fn parakeet_model_dir(&self) -> (r: String)
        ensures
            r@ == self.model_dir@,
    {
        self.model_dir.clone()
    }
}

/// Every segment of an answer that has times is kept, once and in order, and no other: with its
/// times in milliseconds, by its seconds where it has both of them and else by its samples, and
/// with its text, trimmed.
pub proof fn timed_segments_are_all_kept(reply: RawReplyView, rate: Option<u64>)
    ensures
        reply.segments is None ==> timed_in(reply, rate).len() == 0,
        reply.segments matches Some(list) ==> {
            let seconds = |s: RawSegmentView| s.start is Some && s.end is Some;
            let samples = |s: RawSegmentView|
                rate is Some && s.start_sample is Some && s.end_sample is Some;
            let kept = list.filter(|s: RawSegmentView| seconds(s) || samples(s));
            let r = timed_in(reply, rate);
            &&& r.len() == kept.len()
            &&& forall|i: int|
                #![trigger r[i]]
                #![trigger kept[i]]
                0 <= i < r.len() ==> {
                    &&& seconds(kept[i]) ==> r[i].0 == double::whole_ms(kept[i].start->0) && r[i].1
                        == double::whole_ms(kept[i].end->0)
                    &&& !seconds(kept[i]) ==> r[i].0 == double::whole_ms_at(
                        kept[i].start_sample->0,
                        rate->0,
                    ) && r[i].1 == double::whole_ms_at(kept[i].end_sample->0, rate->0)
                    &&& r[i].2 == match kept[i].text {
                        Some(t) => text::trim(t),
                        None => seq![],
                    }
                }
            &&& (forall|i: int|
                0 <= i < list.len() ==> seconds(#[trigger] list[i]) || samples(list[i])) ==> kept
                == list
        },
{
    if let Some(list) = reply.segments {
        lemma_timed(list, rate);
        let has = |s: RawSegmentView|
            s.start is Some && s.end is Some || rate is Some && s.start_sample is Some
                && s.end_sample is Some;
        let seconds = |s: RawSegmentView| s.start is Some && s.end is Some;
        let samples = |s: RawSegmentView|
            rate is Some && s.start_sample is Some && s.end_sample is Some;
        let both = |s: RawSegmentView| seconds(s) || samples(s);
        lemma_same_filter(list, has, both);
        if forall|i: int| 0 <= i < list.len() ==> seconds(#[trigger] list[i]) || samples(list[i]) {
            assert forall|i: int| 0 <= i < list.len() implies both(#[trigger] list[i]) by {}
            lemma_filter_all(list, both);
        }
    }
}

proof fn lemma_same_filter(
    list: Seq<RawSegmentView>,
    p: spec_fn(RawSegmentView) -> bool,
    q: spec_fn(RawSegmentView) -> bool,
)
    requires
        forall|s: RawSegmentView| #[trigger] p(s) == q(s),
    ensures
        list.filter(p) == list.filter(q),
    decreases list.len(),
{
    reveal(Seq::filter);
    if list.len() > 0 {
        lemma_same_filter(list.drop_last(), p, q);
        assert(p(list.last()) == q(list.last()));
    }
}

proof fn lemma_filter_all(list: Seq<RawSegmentView>, p: spec_fn(RawSegmentView) -> bool)
    requires
        forall|i: int| 0 <= i < list.len() ==> p(#[trigger] list[i]),
    ensures
        list.filter(p) == list,
    decreases list.len(),
{
    reveal(Seq::filter);
    if list.len() > 0 {
        let front = list.drop_last();
        assert(p(list[list.len() - 1]));
        assert forall|i: int| 0 <= i < front.len() implies p(#[trigger] front[i]) by {
            assert(p(list[i]));
        }
        lemma_filter_all(front, p);
        assert(front.push(list.last()) =~= list);
    }
}

proof fn lemma_timed(list: Seq<RawSegmentView>, rate: Option<u64>)
    ensures
        ({
            let has = |s: RawSegmentView|
                s.start is Some && s.end is Some || rate is Some && s.start_sample is Some
                    && s.end_sample is Some;
            let kept = list.filter(has);
            let r = timed(list, rate);
            &&& r.len() == kept.len()
            &&& forall|i: int|
                #![trigger r[i]]
                #![trigger kept[i]]
                0 <= i < r.len() ==> {
                    let (a, b) = times(kept[i], rate)->0;
                    &&& has(kept[i])
                    &&& r[i] == (a, b, trimmed_or_empty(kept[i].text))
                }
        }),
    decreases list.len(),
{
    reveal(Seq::filter);
    if list.len() > 0 {
        lemma_timed(list.drop_last(), rate);
    }
}

/// What is read from the JSON text of an answer is what stands in it at the places that engines
/// use: as many segments as the list has, each with its own fields.
pub proof fn a_body_is_read_field_by_field(body: Seq<char>, i: int)
    ensures
        ({
            let r = reply_in(body);
            let at = |field: Seq<char>| "/segments/"@ + text::decimal(i as nat) + field;
            &&& r.text == json::json_text(body, "/text"@)
            &&& r.timing_rate == json::json_number(body, "/timing/sample_rate"@)
            &&& r.rate == json::json_number(body, "/sample_rate"@)
            &&& json::json_count(body, "/segments"@) is None ==> r.segments is None
            &&& json::json_count(body, "/segments"@) matches Some(n) ==> {
                &&& r.segments matches Some(list)
                &&& list.len() == n
                &&& 0 <= i < n ==> {
                    &&& list[i].start == json::json_number(body, at("/start"@))
                    &&& list[i].end == json::json_number(body, at("/end"@))
                    &&& list[i].start_sample == json::json_number(body, at("/start_sample"@))
                    &&& list[i].end_sample == json::json_number(body, at("/end_sample"@))
                    &&& list[i].text == json::json_text(body, at("/text"@))
                }
            }
        }),
{
}

/// The rate beside the timing of an answer goes before that of the answer itself. One that is
/// missing, or not more than zero, is taken to be 16000.
pub proof fn sample_rates_have_their_order(reply: RawReplyView)
    ensures
        reply.timing_rate matches Some(r) ==> sample_rate(reply) == if 0 < r <= 0x7FF0_0000_0000_0000 {
            r
        } else {
            0x40CF_4000_0000_0000
        },
        reply.timing_rate is None ==> sample_rate(reply) == match reply.rate {
            Some(r) if 0 < r <= 0x7FF0_0000_0000_0000 => r,
            _ => 0x40CF_4000_0000_0000,
        },
{
    assert(2047 * double::UNIT == 0x7FF0_0000_0000_0000);
}

/// An answer's text is taken without the whitespace around it, and its segments by seconds
/// alone, but for those of audio.cpp, where samples may stand in.
pub proof fn answers_are_understood_by_route(route: Route, raw: RawReplyView)
    ensures
        understood(route, raw).0 == match raw.text {
            Some(t) => text::trim(t),
            None => seq![],
        },
        route == Route::AudioCpp ==> understood(route, raw).1 == timed_in(
            raw,
            Some(sample_rate(raw)),
        ),
        route != Route::AudioCpp ==> understood(route, raw).1 == timed_in(raw, None),
{
}

/// An engine is found by its own name, and every other name means whisper. Where nobody named
/// one, the environment does, and where that says nothing either, it is whisper.
pub proof fn engines_are_found_by_name(engine: Seq<char>, env: Option<Seq<char>>)
    ensures
        route_of("parakeet"@) == Route::Parakeet,
        route_of("audiocpp"@) == Route::AudioCpp,
        route_of("gateway"@) == Route::Gateway,
        engine != "parakeet"@ && engine != "audiocpp"@ && engine != "gateway"@ ==> route_of(engine)
            == Route::Whisper,
        text::blank(engine) ==> resolved_engine(Some(engine), env) == default_engine(env),
        resolved_engine(None, env) == default_engine(env),
        default_engine(None) == "whisper"@,
        text::blank(engine) ==> default_engine(Some(engine)) == "whisper"@,
        !text::blank(engine) ==> default_engine(Some(engine)) == text::trim(engine),
        !text::blank(engine) ==> resolved_engine(Some(engine), env) == text::trim(engine),
{
    text::lemma_trim(engine);
    reveal_strlit("parakeet");
    reveal_strlit("audiocpp");
    reveal_strlit("gateway");
    assert("parakeet"@[0] != "audiocpp"@[0]);
    assert("parakeet"@.len() != "gateway"@.len());
    assert("audiocpp"@.len() != "gateway"@.len());
}

/// A path is put behind an address from which the slashes at its end are gone, and nothing
/// else. The provider and the model behind the gateway are those that are set, or the usual.
pub proof fn requests_go_where_they_should(base: Seq<char>, path: Seq<char>, set: Seq<char>)
    ensures
        ({
            let n = joined(base, path).len() - path.len();
            &&& 0 <= n <= base.len()
            &&& joined(base, path) == base.take(n) + path
            &&& n > 0 ==> base[n - 1] != '/'
            &&& forall|i: int| n <= i < base.len() ==> #[trigger] base[i] == '/'
        }),
        slot_provider(None) == "openai"@,
        slot_model(None) == "whisper-large-v3"@,
        text::blank(set) ==> slot_provider(Some(set)) == "openai"@ && slot_model(Some(set))
            == "whisper-large-v3"@,
        !text::blank(set) ==> slot_provider(Some(set)) == text::trim(set) && slot_model(Some(set))
            == text::trim(set),
{
    text::only_the_end_is_dropped(base, '/');
    text::lemma_trim(set);
    let kept = text::without_end(base, '/');
    assert(joined(base, path) =~= base.take(kept.len() as int) + path);
}

/// The port of audio.cpp is the one that is set, or its usual one moved by the offset of the
/// node, but no further than ports go. What is no number of a port is not set.
pub proof fn ports_are_moved_together(port: Option<Seq<char>>, offset: Option<Seq<char>>)
    ensures
        port_in(port) matches Some(p) ==> audio_cpp_port(port, offset) == p && p <= 65535,
        port_in(port) is None && port_in(offset) is None ==> audio_cpp_port(port, offset)
            == 8086,
        port_in(port) is None ==> (port_in(offset) matches Some(o) ==> audio_cpp_port(port, offset)
            == if 8086 + o <= 65535 {
            8086 + o
        } else {
            65535
        }),
        port_in(None) is None,
{
}

/// The letters of base64, in the order of the six bits they stand for.
pub open spec fn base64_letters() -> Seq<char> {
    "ABCDEFGHIJKLMNOPQRSTUVWXYZabcdefghijklmnopqrstuvwxyz0123456789+/"@
}

/// Base64 is four letters for every three bytes begun. Three bytes in front are coded on their
/// own: the letters' places are the bytes' bits, six at a time. A group that is not full has a
/// `=` for each byte that it lacks.
pub proof fn base64_codes_three_bytes_at_a_time(bytes: Seq<u8>, rest: Seq<u8>)
    requires
        0 < bytes.len() <= 3,
        bytes.len() == 3 || rest.len() == 0,
    ensures
        base64_text(seq![]).len() == 0,
        ({
            let r = base64_text(bytes + rest);
            let letters = base64_letters();
            let byte = |i: int|
                if i < bytes.len() {
                    bytes[i] as int
                } else {
                    0
                };
            let bits = byte(0) * 65536 + byte(1) * 256 + byte(2);
            &&& r.len() >= 4
            &&& r.skip(4) == base64_text(rest)
            &&& r[0] == letters[bits / 262144]
            &&& r[1] == letters[bits / 4096 % 64]
            &&& r[2] == if bytes.len() > 1 {
                letters[bits / 64 % 64]
            } else {
                '='
            }
            &&& r[3] == if bytes.len() > 2 {
                letters[bits % 64]
            } else {
                '='
            }
        }),
{
    let all = bytes + rest;
    let r = base64_text(all);
    let letters = base64_letters();
    reveal_strlit("ABCDEFGHIJKLMNOPQRSTUVWXYZabcdefghijklmnopqrstuvwxyz0123456789+/");
    assert forall|n: int| 0 <= n < 64 implies base64_char(n) == #[trigger] letters[n] by {}
    assert(base64_text(seq![]) =~= seq![]);
    let a = all[0] as int;
    let b = if bytes.len() > 1 {
        all[1] as int
    } else {
        0
    };
    let c = if bytes.len() > 2 {
        all[2] as int
    } else {
        0
    };
    let bits = a * 65536 + b * 256 + c;
    assert(bits / 262144 == a / 4);
    assert(bits / 4096 % 64 == a % 4 * 16 + b / 16);
    assert(bits / 64 % 64 == b % 16 * 4 + c / 64);
    assert(bits % 64 == c % 64);
    if bytes.len() == 3 {
        assert(all.skip(3) =~= rest);
        assert(r.skip(4) =~= base64_text(rest));
    } else {
        assert(all =~= bytes);
        assert(rest =~= seq![]);
        assert(r.skip(4) =~= seq![]);
    }
}

/// What went wrong is told by the engine that was asked: that it could not be reached, and where;
/// that it refused, with what; or that its answer made no sense.
pub proof fn failures_name_their_engine(a: Seq<char>, b: Seq<char>)
    ensures
        unreachable_text(Route::Whisper, a, b) == "whisper voice engine not reachable at "@ + a
            + ": "@ + b + ". Install + start `whispercpp` from the Store first."@,
        unreachable_text(Route::AudioCpp, a, b) == "audio.cpp voice engine not reachable at "@ + a
            + ": "@ + b + ". Install + start `audiocpp` from the Store first."@,
        unreachable_text(Route::Gateway, a, b) == "gateway STT unreachable at "@ + a + ": "@ + b,
        refused_text(Route::Whisper, a, b) == "whisper returned "@ + a + ": "@ + b,
        refused_text(Route::AudioCpp, a, b) == "audio.cpp returned "@ + a + ": "@ + b,
        refused_text(Route::Gateway, a, b) == "gateway STT returned "@ + a + ": "@ + b,
        unparsable_text(Route::Whisper, a) == "could not parse whisper response: "@ + a,
        unparsable_text(Route::AudioCpp, a) == "could not parse audio.cpp response: "@ + a,
        unparsable_text(Route::Gateway, a) == "could not parse gateway STT response: "@ + a,
        parakeet_failure(a) == "parakeet transcription failed: "@ + a,
{
}

/// A request carries the audio as it is, or its base64, under the name it was given, to the
/// address of the engine and for the model that was asked for.
pub proof fn requests_carry_the_audio(
    request: Request,
    base: Seq<char>,
    model: Seq<char>,
    token: Seq<char>,
    env: EngineEnv,
    bytes: Seq<u8>,
    filename: Seq<char>,
)
    ensures
        whisper_upload(request, base, bytes, filename) ==> {
            &&& request is Upload
            &&& request->Upload_url@ == base + "/inference"@
            &&& request->field@ == "response_format"@ && request->value@ == "verbose_json"@
            &&& request->filename@ == filename && request->bytes@ == bytes
        },
        audio_cpp_upload(request, base, model, bytes, filename) ==> {
            &&& request is Upload
            &&& request->Upload_url@ == text::without_end(base, '/') + "/v1/audio/transcriptions"@
            &&& request->field@ == "model"@ && request->value@ == model
            &&& request->filename@ == filename && request->bytes@ == bytes
        },
        gateway_slot(request, base, token, env, bytes) ==> {
            &&& request is Slot
            &&& request->Slot_url@ == text::without_end(base, '/') + "/v1/audio/transcriptions"@
            &&& request->bearer@ == token
            &&& request->provider@ == slot_provider(text::opt(env.gateway_provider))
            &&& request->model@ == slot_model(text::opt(env.gateway_model))
            &&& request->file@ == base64_text(bytes)
            &&& request->response_format@ == "verbose_json"@
        },
{
}

/// A plan is for the engine that was wanted: Parakeet is run on the audio, and every other engine
/// is sent a request that holds it. Only the plan for the gateway can fail.
pub proof fn plans_are_for_the_engine_that_was_wanted<H: SttHost>(
    host: &H,
    wanted: Route,
    env: EngineEnv,
    bytes: Seq<u8>,
    filename: Seq<char>,
    plan: Result<Plan, String>,
)
    requires
        planned(host, wanted, env, bytes, filename, plan),
    ensures
        plan is Err ==> wanted == Route::Gateway,
        wanted == Route::Parakeet ==> plan->Ok_0 is Run && plan->Ok_0->bytes@ == bytes,
        wanted != Route::Parakeet && plan is Ok ==> {
            &&& plan->Ok_0 is Send
            &&& plan->Ok_0->route == wanted
            &&& wanted == Route::Gateway <==> plan->Ok_0->request is Slot
            &&& wanted == Route::Gateway ==> plan->Ok_0->request->file@ == base64_text(bytes)
            &&& wanted != Route::Gateway ==> {
                &&& plan->Ok_0->request->bytes@ == bytes
                &&& plan->Ok_0->request->filename@ == filename
            }
        },
{
}

} // verus!
