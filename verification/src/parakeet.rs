//! The Parakeet engine, which runs in the process where it was built in. This build does
//! without it, and answers so; what the engine would be fed is prepared here all the same.
//!
//! Parakeet takes 16 kHz mono 16-bit PCM and nothing else, while browsers and speech
//! synthesizers produce 24 or 48 kHz, or stereo.

use crate::media;
use crate::text;
use vstd::prelude::*;

verus! {

/// What asking for Parakeet is answered in a build without it. Another engine is not run in
/// its place: the caller would take its results for those of the engine they named.
pub const NOT_BUILT: &'static str = "parakeet inference is not built into this build. Rebuild with `--features voice-parakeet` (pulls ONNX Runtime via transcribe-rs), or use the whisper.cpp voice engine instead.";

/// Transcribes a WAV file with the model in `model_dir`: in a build without the engine, always
/// an error that says what to do.
pub fn transcribe(audio: Vec<u8>, model_dir: String) -> (r: Result<String, String>)
    ensures
        r matches Err(e) && e@ == NOT_BUILT@,
{
    let _ = (audio, model_dir);
    Err(NOT_BUILT.to_string())
}

/// Loads the model so that the first transcription is fast: in a build without the engine,
/// there is nothing to do and nothing to fail.
pub fn preload(model_dir: &str) -> (r: Result<(), String>)
    ensures
        r == Ok::<(), String>(()),
{
    let _ = model_dir;
    Ok(())
}

/// Drops the model: in a build without the engine, there is none.
pub fn unload() {
}

/// What the header of a WAV file says.
#[derive(Debug, Clone, Copy, PartialEq, Eq)]
pub struct WavLayout {
    pub channels: u16,
    pub sample_rate: u32,
    pub bits_per_sample: u16,
    /// Whether samples are floating point numbers rather than integers.
    pub float: bool,
    /// How many samples there are, those of all channels together.
    pub samples: u32,
}

/// What the header of a WAV file says, or why it could not be read.
pub uninterp spec fn wav_layout(bytes: Seq<u8>) -> Result<WavLayout, Seq<char>>;

/// The samples of a WAV file of 8-bit integers, or why they could not be read.
pub uninterp spec fn wav_bytes(bytes: Seq<u8>) -> Result<Seq<i8>, Seq<char>>;

/// The samples of a WAV file of 16-bit integers, or why they could not be read.
pub uninterp spec fn wav_shorts(bytes: Seq<u8>) -> Result<Seq<i16>, Seq<char>>;

/// The samples of a WAV file of wider integers, or why they could not be read.
pub uninterp spec fn wav_integers(bytes: Seq<u8>) -> Result<Seq<i32>, Seq<char>>;

/// The samples of a WAV file whose header says that they have `bits` bits, read as integers
/// of that width.
pub open spec fn wav_samples(bytes: Seq<u8>, bits: u16) -> Result<Seq<i32>, Seq<char>> {
    if bits == 8 {
        match wav_bytes(bytes) {
            Ok(s) => Ok(s.map_values(|b: i8| b as i32)),
            Err(why) => Err(why),
        }
    } else if bits == 16 {
        match wav_shorts(bytes) {
            Ok(s) => Ok(s.map_values(|b: i16| b as i32)),
            Err(why) => Err(why),
        }
    } else {
        wav_integers(bytes)
    }
}

/// What the header of a file that the engine takes says of `count` samples.
pub open spec fn engine_layout(count: nat) -> Result<WavLayout, Seq<char>> {
    Ok(
        WavLayout {
            channels: 1,
            sample_rate: 16000,
            bits_per_sample: 16,
            float: false,
            samples: count as u32,
        },
    )
}

/// Samples that could be read.
pub open spec fn written_samples(samples: Seq<i16>) -> Result<Seq<i16>, Seq<char>> {
    Ok(samples)
}

/// The samples of a file that the engine takes, as wider numbers.
pub open spec fn engine_samples(samples: Seq<i16>) -> Result<Seq<i32>, Seq<char>> {
    Ok(samples.map_values(|s: i16| s as i32))
}

/// A result with a message as a mathematical value.
pub open spec fn layout_text(r: Result<WavLayout, String>) -> Result<WavLayout, Seq<char>> {
    match r {
        Ok(l) => Ok(l),
        Err(e) => Err(e@),
    }
}

/// 8-bit samples or a message as a mathematical value.
pub open spec fn bytes_text(r: Result<Vec<i8>, String>) -> Result<Seq<i8>, Seq<char>> {
    match r {
        Ok(v) => Ok(v@),
        Err(e) => Err(e@),
    }
}

/// 16-bit samples or a message as a mathematical value.
pub open spec fn shorts_text(r: Result<Vec<i16>, String>) -> Result<Seq<i16>, Seq<char>> {
    match r {
        Ok(v) => Ok(v@),
        Err(e) => Err(e@),
    }
}

/// Samples or a message as a mathematical value.
pub open spec fn samples_text(r: Result<Vec<i32>, String>) -> Result<Seq<i32>, Seq<char>> {
    match r {
        Ok(v) => Ok(v@),
        Err(e) => Err(e@),
    }
}

/// Reads the header of a WAV file in memory with `hound::WavReader::new`, `spec` and `len`.
/// What comes out depends on the bytes alone; of a file of 16-bit mono PCM at 16 kHz it is
/// just that, with as many samples as were written.
#[verifier::external_body]
fn read_layout(audio: &[u8]) -> (r: Result<WavLayout, String>)
    ensures
        layout_text(r) == wav_layout(audio@),
        forall|samples: Seq<i16>|
            audio@ == #[trigger] media::wav_file(samples) && 2 * samples.len() + 36 <= u32::MAX
                ==> layout_text(r) == engine_layout(samples.len()),
{
    match hound::WavReader::new(std::io::Cursor::new(audio)) {
        Ok(reader) => Ok(WavLayout {
            channels: reader.spec().channels,
            sample_rate: reader.spec().sample_rate,
            bits_per_sample: reader.spec().bits_per_sample,
            float: reader.spec().sample_format == hound::SampleFormat::Float,
            samples: reader.len(),
        }),
        Err(e) => Err(e.to_string()),
    }
}

/// Reads the samples of a WAV file in memory with `hound::WavReader::samples`, as 8-bit
/// integers. What comes out depends on the bytes alone.
#[verifier::external_body]
fn read_bytes(audio: &[u8]) -> (r: Result<Vec<i8>, String>)
    ensures
        bytes_text(r) == wav_bytes(audio@),
{
    match hound::WavReader::new(std::io::Cursor::new(audio)) {
        Ok(mut reader) => match reader.samples::<i8>().collect::<Result<Vec<i8>, _>>() {
            Ok(samples) => Ok(samples),
            Err(e) => Err(e.to_string()),
        },
        Err(e) => Err(e.to_string()),
    }
}

/// Reads the samples of a WAV file in memory with `hound::WavReader::samples`, as 16-bit
/// integers. What comes out depends on the bytes alone; of a file of 16-bit mono PCM at 16 kHz
/// it is the samples that were written.
#[verifier::external_body]
fn read_shorts(audio: &[u8]) -> (r: Result<Vec<i16>, String>)
    ensures
        shorts_text(r) == wav_shorts(audio@),
        forall|samples: Seq<i16>|
            audio@ == #[trigger] media::wav_file(samples) && 2 * samples.len() + 36 <= u32::MAX
                ==> shorts_text(r) == written_samples(samples),
{
    match hound::WavReader::new(std::io::Cursor::new(audio)) {
        Ok(mut reader) => match reader.samples::<i16>().collect::<Result<Vec<i16>, _>>() {
            Ok(samples) => Ok(samples),
            Err(e) => Err(e.to_string()),
        },
        Err(e) => Err(e.to_string()),
    }
}

/// Reads the samples of a WAV file in memory with `hound::WavReader::samples`, as 32-bit
/// integers. What comes out depends on the bytes alone.
#[verifier::external_body]
fn read_integers(audio: &[u8]) -> (r: Result<Vec<i32>, String>)
    ensures
        samples_text(r) == wav_integers(audio@),
{
    match hound::WavReader::new(std::io::Cursor::new(audio)) {
        Ok(mut reader) => match reader.samples::<i32>().collect::<Result<Vec<i32>, _>>() {
            Ok(samples) => Ok(samples),
            Err(e) => Err(e.to_string()),
        },
        Err(e) => Err(e.to_string()),
    }
}

/// Reads the header of a WAV file.
pub fn describe(audio: &[u8]) -> (r: Result<WavLayout, String>)
    ensures
        match (r, wav_layout(audio@)) {
            (Ok(l), Ok(m)) => l == m,
            (Err(e), Err(why)) => e@ == "reading WAV input for Parakeet: "@ + why,
            _ => false,
        },
        forall|samples: Seq<i16>|
            audio@ == #[trigger] media::wav_file(samples) && 2 * samples.len() + 36 <= u32::MAX
                ==> layout_text(r) == engine_layout(samples.len()),
{
    match read_layout(audio) {
        Ok(l) => Ok(l),
        Err(e) => Err(text::concat("reading WAV input for Parakeet: ", &e)),
    }
}

/// How the samples of a file become numbers between -1 and 1.
#[derive(Debug, Clone, Copy, PartialEq, Eq, Structural)]
pub enum Scale {
    /// Integers, divided by this.
    By(u32),
    /// Floating point numbers, as they are.
    AsIs,
}

/// What the name of a sample format is in messages.
pub open spec fn format_name(float: bool) -> Seq<char> {
    if float {
        "Float"@
    } else {
        "Int"@
    }
}

/// What the user is told of a format that is not understood.
pub open spec fn unsupported_text(l: WavLayout) -> Seq<char> {
    "unsupported WAV format: "@ + text::decimal(l.channels as nat) + " channels, "@ + text::decimal(
        l.sample_rate as nat,
    ) + " Hz, "@ + text::decimal(l.bits_per_sample as nat) + "-bit "@ + format_name(l.float)
        + "; expected PCM or 32-bit float"@
}

/// How the samples of a file with this header become numbers between -1 and 1, or why they do
/// not.
pub open spec fn scale_of(l: WavLayout) -> Result<Scale, Seq<char>> {
    if l.channels == 0 {
        Err("WAV input has no channels"@)
    } else if l.sample_rate == 0 {
        Err("WAV input has no sample rate"@)
    } else if !l.float && l.bits_per_sample == 8 {
        Ok(Scale::By(128))
    } else if !l.float && l.bits_per_sample == 16 {
        Ok(Scale::By(32767))
    } else if !l.float && l.bits_per_sample == 24 {
        Ok(Scale::By(8388607))
    } else if !l.float && l.bits_per_sample == 32 {
        Ok(Scale::By(2147483647))
    } else if l.float && l.bits_per_sample == 32 {
        Ok(Scale::AsIs)
    } else {
        Err(unsupported_text(l))
    }
}

/// How the samples of a file with this header become numbers between -1 and 1.
pub fn sample_scale(l: &WavLayout) -> (r: Result<Scale, String>)
    ensures
        match (r, scale_of(*l)) {
            (Ok(s), Ok(t)) => s == t,
            (Err(e), Err(why)) => e@ == why,
            _ => false,
        },
{
    if l.channels == 0 {
        return Err("WAV input has no channels".to_string());
    }
    if l.sample_rate == 0 {
        return Err("WAV input has no sample rate".to_string());
    }
    if !l.float && l.bits_per_sample == 8 {
        return Ok(Scale::By(128));
    }
    if !l.float && l.bits_per_sample == 16 {
        return Ok(Scale::By(32767));
    }
    if !l.float && l.bits_per_sample == 24 {
        return Ok(Scale::By(8388607));
    }
    if !l.float && l.bits_per_sample == 32 {
        return Ok(Scale::By(2147483647));
    }
    if l.float && l.bits_per_sample == 32 {
        return Ok(Scale::AsIs);
    }
    let mut out = text::chars_of("unsupported WAV format: ");
    text::append(&mut out, text::decimal_of(l.channels as u64).as_slice());
    text::append_str(&mut out, " channels, ");
    text::append(&mut out, text::decimal_of(l.sample_rate as u64).as_slice());
    text::append_str(&mut out, " Hz, ");
    text::append(&mut out, text::decimal_of(l.bits_per_sample as u64).as_slice());
    text::append_str(&mut out, "-bit ");
    text::append_str(
        &mut out,
        if l.float {
            "Float"
        } else {
            "Int"
        },
    );
    text::append_str(&mut out, "; expected PCM or 32-bit float");
    Err(text::string_of(out.as_slice()))
}

/// What the user is told when samples could not be read.
pub open spec fn decoding_text(bits: u16, why: Seq<char>) -> Seq<char> {
    if bits == 8 {
        "decoding 8-bit WAV input: "@ + why
    } else if bits == 16 {
        "decoding 16-bit WAV input: "@ + why
    } else {
        "decoding 24/32-bit WAV input: "@ + why
    }
}

/// What the user is told when samples could not be read.
pub fn decoding_message(bits: u16, why: &str) -> (r: String)
    ensures
        r@ == decoding_text(bits, why@),
{
    if bits == 8 {
        text::concat("decoding 8-bit WAV input: ", why)
    } else if bits == 16 {
        text::concat("decoding 16-bit WAV input: ", why)
    } else {
        text::concat("decoding 24/32-bit WAV input: ", why)
    }
}

/// 8-bit samples as wider numbers.
pub fn widened_bytes(samples: &[i8]) -> (r: Vec<i32>)
    ensures
        r@ == samples@.map_values(|b: i8| b as i32),
{
    let mut out: Vec<i32> = Vec::new();
    let mut i: usize = 0;
    while i < samples.len()
        invariant
            i <= samples@.len(),
            out@ == samples@.take(i as int).map_values(|b: i8| b as i32),
        decreases samples@.len() - i,
    {
        out.push(samples[i] as i32);
        i += 1;
        assert(out@ =~= samples@.take(i as int).map_values(|b: i8| b as i32));
    }
    assert(samples@.take(i as int) =~= samples@);
    out
}

/// 16-bit samples as wider numbers.
pub fn widened_shorts(samples: &[i16]) -> (r: Vec<i32>)
    ensures
        r@ == samples@.map_values(|b: i16| b as i32),
{
    let mut out: Vec<i32> = Vec::new();
    let mut i: usize = 0;
    while i < samples.len()
        invariant
            i <= samples@.len(),
            out@ == samples@.take(i as int).map_values(|b: i16| b as i32),
        decreases samples@.len() - i,
    {
        out.push(samples[i] as i32);
        i += 1;
        assert(out@ =~= samples@.take(i as int).map_values(|b: i16| b as i32));
    }
    assert(samples@.take(i as int) =~= samples@);
    out
}

/// The samples of a file of integers of `bits` bits.
pub fn integer_samples(audio: &[u8], bits: u16) -> (r: Result<Vec<i32>, String>)
    ensures
        match (r, wav_samples(audio@, bits)) {
            (Ok(v), Ok(s)) => v@ == s,
            (Err(e), Err(why)) => e@ == decoding_text(bits, why),
            _ => false,
        },
        forall|samples: Seq<i16>|
            audio@ == #[trigger] media::wav_file(samples) && 2 * samples.len() + 36 <= u32::MAX
                && bits == 16 ==> samples_text(r) == engine_samples(samples),
{
    let read: Result<Vec<i32>, String> = if bits == 8 {
        match read_bytes(audio) {
            Ok(v) => Ok(widened_bytes(v.as_slice())),
            Err(e) => Err(e),
        }
    } else if bits == 16 {
        match read_shorts(audio) {
            Ok(v) => Ok(widened_shorts(v.as_slice())),
            Err(e) => Err(e),
        }
    } else {
        read_integers(audio)
    };
    match read {
        Ok(v) => Ok(v),
        Err(e) => Err(decoding_message(bits, &e)),
    }
}

/// How many frames `count` samples of `channels` channels make.
pub fn frame_count(count: usize, channels: u16) -> (r: Result<usize, &'static str>)
    requires
        channels > 0,
    ensures
        match r {
            Ok(n) => n > 0 && n * channels == count,
            Err(why) => if count % channels as usize != 0 {
                why@ == "WAV sample count is not divisible by its channel count"@
            } else {
                count == 0 && why@ == "WAV input has no samples"@
            },
        },
{
    let per: usize = channels as usize;
    if count % per != 0 {
        return Err("WAV sample count is not divisible by its channel count");
    }
    let n: usize = count / per;
    assert(n * per == count) by (nonlinear_arith)
        requires
            n == count / per,
            count % per == 0,
            per > 0,
    ;
    if n == 0 {
        assert(count == 0) by (nonlinear_arith)
            requires
                n * per == count,
                n == 0,
        ;
        return Err("WAV input has no samples");
    }
    Ok(n)
}

/// Samples are understood where there are channels and a rate, and they are integers of 8, 16,
/// 24 or 32 bits or floating point numbers of 32. Integers are divided by the largest of their
/// width, those of 8 bits by the size of the smallest; floating point numbers are taken as they
/// are.
pub proof fn samples_are_scaled_by_their_width(l: WavLayout)
    ensures
        ({
            let readable = l.channels > 0 && l.sample_rate > 0;
            &&& scale_of(l) is Ok <==> readable && if l.float {
                l.bits_per_sample == 32
            } else {
                seq![8u16, 16u16, 24u16, 32u16].contains(l.bits_per_sample)
            }
            &&& readable && !l.float && l.bits_per_sample == 8 ==> scale_of(l)->Ok_0 == Scale::By(
                0x80,
            )
            &&& readable && !l.float && l.bits_per_sample == 16 ==> scale_of(l)->Ok_0 == Scale::By(
                0x7fff,
            )
            &&& readable && !l.float && l.bits_per_sample == 24 ==> scale_of(l)->Ok_0 == Scale::By(
                0x7f_ffff,
            )
            &&& readable && !l.float && l.bits_per_sample == 32 ==> scale_of(l)->Ok_0 == Scale::By(
                0x7fff_ffff,
            )
            &&& readable && l.float && l.bits_per_sample == 32 ==> scale_of(l)->Ok_0 == Scale::AsIs
            &&& l.channels == 0 ==> scale_of(l)->Err_0 == "WAV input has no channels"@
            &&& l.channels > 0 && l.sample_rate == 0 ==> scale_of(l)->Err_0
                == "WAV input has no sample rate"@
            &&& readable && scale_of(l) is Err ==> scale_of(l)->Err_0 == "unsupported WAV format: "@
                + text::decimal(l.channels as nat) + " channels, "@ + text::decimal(
                l.sample_rate as nat,
            ) + " Hz, "@ + text::decimal(l.bits_per_sample as nat) + if l.float {
                "-bit "@ + "Float"@
            } else {
                "-bit "@ + "Int"@
            } + "; expected PCM or 32-bit float"@
        }),
{
    let widths = seq![8u16, 16u16, 24u16, 32u16];
    assert(widths[0] == 8 && widths[1] == 16 && widths[2] == 24 && widths[3] == 32);
    let front = "unsupported WAV format: "@ + text::decimal(l.channels as nat) + " channels, "@
        + text::decimal(l.sample_rate as nat) + " Hz, "@ + text::decimal(l.bits_per_sample as nat);
    if l.float {
        assert(front + "-bit "@ + "Float"@ =~= front + ("-bit "@ + "Float"@));
    } else {
        assert(front + "-bit "@ + "Int"@ =~= front + ("-bit "@ + "Int"@));
    }
}

/// The samples of a file are the numbers that are read at their width, one for each, whatever
/// the width; what could not be read is told with the width.
pub proof fn samples_keep_their_values(bytes: Seq<u8>, bits: u16, i: int, why: Seq<char>)
    ensures
        wav_samples(bytes, 8) is Ok <==> wav_bytes(bytes) is Ok,
        wav_samples(bytes, 8) matches Ok(s) ==> s.len() == wav_bytes(bytes)->Ok_0.len() && (0 <= i
            < s.len() ==> s[i] == wav_bytes(bytes)->Ok_0[i]),
        wav_samples(bytes, 16) is Ok <==> wav_shorts(bytes) is Ok,
        wav_samples(bytes, 16) matches Ok(s) ==> s.len() == wav_shorts(bytes)->Ok_0.len() && (0 <= i
            < s.len() ==> s[i] == wav_shorts(bytes)->Ok_0[i]),
        bits != 8 && bits != 16 ==> wav_samples(bytes, bits) == wav_integers(bytes),
        decoding_text(8, why) == "decoding 8-bit WAV input: "@ + why,
        decoding_text(16, why) == "decoding 16-bit WAV input: "@ + why,
        decoding_text(24, why) == "decoding 24/32-bit WAV input: "@ + why,
        decoding_text(32, why) == "decoding 24/32-bit WAV input: "@ + why,
{
}

} // verus!
