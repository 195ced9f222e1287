//! From decoded samples to windows a speech engine will accept.
//!
//! Decoding streams: samples come in one by one at 16 kHz, and windows of about half a
//! minute come out, so that a long film never lives in memory.
//!
//! A window is not cut at exactly [`WINDOW_SECS`]. A cut through the middle of a word is
//! transcribed as two wrong words, so the cut falls in the quietest 100 ms within
//! [`CUT_SEARCH_SECS`] on either side. Continuous audio cannot stretch a window past
//! `WINDOW_SECS + CUT_SEARCH_SECS`.

use crate::library::MediaPath;
use crate::text;
use vstd::prelude::*;

verus! {

/// The sample rate every window is resampled to.
pub const TARGET_RATE: u32 = 16000;

/// Nominal window length in seconds.
pub const WINDOW_SECS: u32 = 30;

/// How far on either side of the nominal cut point to hunt for silence, in seconds.
pub const CUT_SEARCH_SECS: u32 = 5;

/// Granularity of the silence hunt in milliseconds.
pub const SILENCE_FRAME_MS: u32 = 100;

/// Samples in one frame of the silence hunt.
pub const FRAME: usize = 1600;

/// Samples in the longest window there is.
pub const LONGEST: usize = 560000;

/// How many samples `secs` seconds of audio have.
pub fn samples_per(secs: u32) -> (r: usize)
    requires
        TARGET_RATE * secs <= u32::MAX,
    ensures
        r == TARGET_RATE * secs,
{
    (TARGET_RATE * secs) as usize
}

/// How many samples one frame of the silence hunt has.
pub fn frame_len() -> (r: usize)
    ensures
        r == FRAME,
        r == TARGET_RATE * SILENCE_FRAME_MS / 1000,
{
    (TARGET_RATE * SILENCE_FRAME_MS / 1000) as usize
}

/// How many whole milliseconds `samples` samples last.
pub open spec fn ms_of(samples: nat) -> nat {
    samples * 1000 / TARGET_RATE as nat
}

/// How many whole milliseconds `samples` samples last.
pub fn samples_to_ms(samples: u64) -> (r: u64)
    ensures
        r == ms_of(samples as nat),
{
    let wide: u128 = (samples as u128) * 1000 / (TARGET_RATE as u128);
    wide as u64
}

/// The energy of a run of samples: the sum of their squares.
pub open spec fn energy(s: Seq<i16>) -> nat
    decreases s.len(),
{
    if s.len() == 0 {
        0
    } else {
        energy(s.drop_last()) + (s.last() * s.last()) as nat
    }
}

/// The energy of frame `i` of `s`.
pub open spec fn frame_energy(s: Seq<i16>, i: int) -> nat {
    energy(s.subrange(i * FRAME, i * FRAME + FRAME))
}

/// The first of the frames `lo..hi` of `s` that no other of them is quieter than.
pub open spec fn quietest(s: Seq<i16>, lo: int, hi: int) -> int
    decreases hi - lo,
{
    if hi <= lo + 1 {
        lo
    } else {
        let best = quietest(s, lo, hi - 1);
        if frame_energy(s, hi - 1) < frame_energy(s, best) {
            hi - 1
        } else {
            best
        }
    }
}

/// Where a window of the samples `s` is cut: in the middle of the quietest frame of the
/// search band, or at the nominal point when the band holds no whole frame.
pub open spec fn cut_point(s: Seq<i16>) -> int {
    let lo = (WINDOW_SECS - CUT_SEARCH_SECS) * TARGET_RATE / FRAME as int;
    let end = if s.len() < LONGEST {
        s.len() as int
    } else {
        LONGEST as int
    };
    let hi = end / FRAME as int;
    let cut = if lo >= hi {
        WINDOW_SECS * TARGET_RATE
    } else {
        quietest(s, lo, hi) * FRAME + FRAME / 2
    };
    if cut < s.len() {
        cut
    } else {
        s.len() as int
    }
}

/// A window whose cut point has been chosen.
#[derive(Debug, Clone, PartialEq, Eq)]
pub struct PendingWindow {
    pub offset_ms: u64,
    pub samples: Vec<i16>,
}

/// A pending window as a mathematical value.
#[verifier::ext_equal]
pub struct PendingView {
    pub offset_ms: nat,
    pub samples: Seq<i16>,
}

impl View for PendingWindow {
    type V = PendingView;

    open spec fn view(&self) -> PendingView {
        PendingView { offset_ms: self.offset_ms as nat, samples: self.samples@ }
    }
}

/// What an accumulator holds: the windows that are ready, and the samples heard since, the
/// first of which is the `start`th of the media.
#[verifier::ext_equal]
pub struct Held {
    pub start: nat,
    pub samples: Seq<i16>,
    pub ready: Seq<PendingView>,
}

/// A window under construction, plus the bookkeeping that decides where it ends.
#[derive(Debug)]
pub struct WindowAccumulator {
    pub samples: Vec<i16>,
    /// Absolute offset, in samples, of `samples[0]` from the start of the media.
    pub start_sample: u64,
    /// Energy of each whole frame of `samples`.
    pub frame_energy: Vec<u64>,
    /// Energy of the samples behind the last whole frame.
    pub current_energy: u64,
    pub ready: Vec<PendingWindow>,
}

impl View for WindowAccumulator {
    type V = Held;

    open spec fn view(&self) -> Held {
        Held {
            start: self.start_sample as nat,
            samples: self.samples@,
            ready: self.ready@.map_values(|w: PendingWindow| w@),
        }
    }
}

/// `h` with its samples cut into a window that is ready and what comes after it.
pub open spec fn cut_off(h: Held) -> Held {
    let cut = cut_point(h.samples);
    Held {
        start: h.start + cut as nat,
        samples: h.samples.skip(cut),
        ready: h.ready.push(
            PendingView { offset_ms: ms_of(h.start), samples: h.samples.take(cut) },
        ),
    }
}

/// `h` after one more sample.
pub open spec fn heard(h: Held, sample: i16) -> Held {
    let more = Held { samples: h.samples.push(sample), ..h };
    if more.samples.len() >= LONGEST {
        cut_off(more)
    } else {
        more
    }
}

proof fn lemma_energy_bound(s: Seq<i16>)
    ensures
        energy(s) <= s.len() * 0x4000_0000,
    decreases s.len(),
{
    if s.len() > 0 {
        lemma_energy_bound(s.drop_last());
        let x = s.last() as int;
        assert(0 <= x * x <= 0x4000_0000) by (nonlinear_arith)
            requires
                -0x8000 <= x <= 0x7fff,
        ;
    }
}

fn square(x: i16) -> (r: u64)
    ensures
        r == x * x,
        r <= 0x4000_0000,
{
    let wide: i64 = x as i64;
    assert(0 <= wide * wide <= 0x4000_0000) by (nonlinear_arith)
        requires
            -0x8000 <= wide <= 0x7fff,
    ;
    (wide * wide) as u64
}

/// The frames of `samples` are measured: `frames` holds the energy of each whole one, and
/// `rest` that of the samples behind them.
pub open spec fn measured(samples: Seq<i16>, frames: Seq<u64>, rest: u64) -> bool {
    &&& frames.len() == samples.len() / (FRAME as nat)
    &&& forall|i: int| 0 <= i < frames.len() ==> #[trigger] frames[i] == frame_energy(samples, i)
    &&& rest == energy(samples.skip(frames.len() * FRAME))
}

/// Measures one more sample: returns the energy behind the last whole frame.
fn measure(frames: &mut Vec<u64>, rest: u64, sample: i16, count: usize, Ghost(before): Ghost<
    Seq<i16>,
>) -> (r: u64)
    requires
        measured(before, old(frames)@, rest),
        count == before.len(),
        count < usize::MAX,
    ensures
        measured(before.push(sample), final(frames)@, r),
{
    let ghost after = before.push(sample);
    let ghost n = frames@.len() as int;
    let ghost old_frames = frames@;
    proof {
        lemma_energy_bound(before.skip(n * FRAME));
        assert(after.skip(n * FRAME) =~= before.skip(n * FRAME).push(sample));
        assert(after.skip(n * FRAME).drop_last() =~= before.skip(n * FRAME));
        assert forall|i: int| 0 <= i < n implies frame_energy(after, i) == frame_energy(
            before,
            i,
        ) by {
            assert(after.subrange(i * FRAME, i * FRAME + FRAME) =~= before.subrange(
                i * FRAME,
                i * FRAME + FRAME,
            ));
        }
        assert(sample * sample >= 0) by (nonlinear_arith);
    }
    let more: u64 = rest + square(sample);
    if (count + 1) % FRAME == 0 {
        frames.push(more);
        proof {
            assert(after.skip(n * FRAME) =~= after.subrange(n * FRAME, n * FRAME + FRAME));
            assert(frames@[n] == frame_energy(after, n));
            assert forall|i: int| 0 <= i < frames@.len() implies #[trigger] frames@[i]
                == frame_energy(after, i) by {
                if i < n {
                    assert(old_frames[i] == frame_energy(before, i));
                }
            }
            assert(after.skip((n + 1) * FRAME) =~= seq![]);
        }
        0
    } else {
        assert forall|i: int| 0 <= i < frames@.len() implies #[trigger] frames@[i] == frame_energy(
            after,
            i,
        ) by {
            assert(old_frames[i] == frame_energy(before, i));
        }
        more
    }
}

impl WindowAccumulator {
    /// The window under construction is shorter than the longest there is, and its frames
    /// are measured.
    pub open spec fn wf(&self) -> bool {
        &&& self.samples@.len() < LONGEST
        &&& measured(self.samples@, self.frame_energy@, self.current_energy)
    }

    /// An accumulator that has heard nothing.
    pub fn new() -> (r: Self)
        ensures
            r.wf(),
            r@ == (Held { start: 0, samples: seq![], ready: seq![] }),
    {
        let r = WindowAccumulator {
            samples: Vec::new(),
            start_sample: 0,
            frame_energy: Vec::new(),
            current_energy: 0,
            ready: Vec::new(),
        };
        assert(r@ =~= Held { start: 0, samples: seq![], ready: seq![] });
        r
    }

    /// Hears one more sample, and stages a window once the longest there is is full.
    pub fn push(&mut self, sample: i16)
        requires
            old(self).wf(),
            old(self)@.start + old(self)@.samples.len() < u64::MAX,
        ensures
            final(self).wf(),
            final(self)@ == heard(old(self)@, sample),
    {
        self.current_energy =
        measure(
            &mut self.frame_energy,
            self.current_energy,
            sample,
            self.samples.len(),
            Ghost(self.samples@),
        );
        self.samples.push(sample);
        if self.samples.len() >= LONGEST {
            self.cut();
        }
    }

    /// Splits at the quietest frame inside the search band and stages the head.
    fn cut(&mut self)
        requires
            old(self)@.samples.len() == LONGEST,
            measured(old(self).samples@, old(self).frame_energy@, old(self).current_energy),
            old(self)@.start + old(self)@.samples.len() <= u64::MAX,
        ensures
            final(self).wf(),
            final(self)@ == cut_off(old(self)@),
    {
        let cut: usize = self.quietest_cut();
        proof {
            lemma_cut_point(self.samples@);
        }
        let ghost before = self@;
        let mut head: Vec<i16> = self.samples.split_off(cut);
        std::mem::swap(&mut head, &mut self.samples);
        let offset_ms: u64 = samples_to_ms(self.start_sample);
        self.start_sample = self.start_sample + head.len() as u64;
        self.ready.push(PendingWindow { offset_ms, samples: head });
        assert(before.samples.take(cut as int) =~= before.samples.subrange(0, cut as int));
        assert(before.samples.skip(cut as int) =~= before.samples.subrange(
            cut as int,
            before.samples.len() as int,
        ));
        self.remeasure();
        assert(self@ =~= cut_off(before));
    }

    /// Measures the frames of the samples anew.
    fn remeasure(&mut self)
        requires
            old(self)@.samples.len() < LONGEST,
        ensures
            final(self).wf(),
            final(self)@ == old(self)@,
    {
        let mut frames: Vec<u64> = Vec::new();
        let mut rest: u64 = 0;
        let mut i: usize = 0;
        assert(self.samples@.take(0).skip(0) =~= seq![]);
        while i < self.samples.len()
            invariant
                i <= self.samples@.len(),
                self.samples@.len() < LONGEST,
                self@ == old(self)@,
                measured(self.samples@.take(i as int), frames@, rest),
            decreases self.samples@.len() - i,
        {
            rest = measure(
                &mut frames,
                rest,
                self.samples[i],
                i,
                Ghost(self.samples@.take(i as int)),
            );
            assert(self.samples@.take(i as int).push(self.samples@[i as int])
                =~= self.samples@.take(i + 1));
            i += 1;
        }
        assert(self.samples@.take(i as int) =~= self.samples@);
        self.frame_energy = frames;
        self.current_energy = rest;
    }

    /// Where to cut: in the middle of the quietest frame of the search band, or at the
    /// nominal point when the band holds no whole frame.
    fn quietest_cut(&self) -> (r: usize)
        requires
            measured(self.samples@, self.frame_energy@, self.current_energy),
            self@.samples.len() <= LONGEST,
        ensures
            r == cut_point(self.samples@),
    {
        let lo: usize = samples_per(WINDOW_SECS - CUT_SEARCH_SECS) / frame_len();
        let hi: usize = self.frame_energy.len();
        let cut: usize = if lo >= hi {
            samples_per(WINDOW_SECS)
        } else {
            let mut best: usize = lo;
            let mut i: usize = lo + 1;
            while i < hi
                invariant
                    lo == 250,
                    lo <= best < i <= hi,
                    hi == self.frame_energy@.len(),
                    measured(self.samples@, self.frame_energy@, self.current_energy),
                    best == quietest(self.samples@, lo as int, i as int),
                decreases hi - i,
            {
                assert(self.frame_energy@[best as int] == frame_energy(
                    self.samples@,
                    best as int,
                ));
                assert(self.frame_energy@[i as int] == frame_energy(self.samples@, i as int));
                if self.frame_energy[i] < self.frame_energy[best] {
                    best = i;
                }
                i += 1;
            }
            best * frame_len() + frame_len() / 2
        };
        if cut < self.samples.len() {
            cut
        } else {
            self.samples.len()
        }
    }

    /// The oldest window that is ready.
    pub fn take_ready(&mut self) -> (r: Option<PendingWindow>)
        requires
            old(self).wf(),
        ensures
            final(self).wf(),
            match r {
                None => old(self)@.ready.len() == 0 && final(self)@ == old(self)@,
                Some(w) => {
                    &&& old(self)@.ready.len() > 0
                    &&& w@ == old(self)@.ready[0]
                    &&& final(self)@ == (Held { ready: old(self)@.ready.skip(1), ..old(self)@ })
                },
            },
    {
        if self.ready.len() == 0 {
            None
        } else {
            let ghost before = self@;
            let w = self.ready.remove(0);
            assert(self@ =~= Held { ready: before.ready.skip(1), ..before });
            Some(w)
        }
    }

    /// The final partial window. `None` when nothing is left, or when what is left is too
    /// short to hold speech: a window of a few milliseconds is answered with a word that
    /// nobody said.
    pub fn take_remainder(&mut self) -> (r: Option<PendingWindow>)
        requires
            old(self).wf(),
            old(self)@.start + old(self)@.samples.len() <= u64::MAX,
        ensures
            final(self).wf(),
            match r {
                None => {
                    &&& old(self)@.ready.len() == 0
                    &&& old(self)@.samples.len() < TARGET_RATE / 4
                    &&& final(self)@ == old(self)@
                },
                Some(w) => if old(self)@.ready.len() > 0 {
                    &&& w@ == old(self)@.ready[0]
                    &&& final(self)@ == (Held { ready: old(self)@.ready.skip(1), ..old(self)@ })
                } else {
                    &&& old(self)@.samples.len() >= TARGET_RATE / 4
                    &&& w@ == (PendingView {
                        offset_ms: ms_of(old(self)@.start),
                        samples: old(self)@.samples,
                    })
                    &&& final(self)@ == (Held {
                        start: old(self)@.start + old(self)@.samples.len(),
                        samples: seq![],
                        ready: seq![],
                    })
                },
            },
    {
        let staged = self.take_ready();
        if staged.is_some() {
            return staged;
        }
        if self.samples.len() < samples_per(1) / 4 {
            return None;
        }
        let offset_ms: u64 = samples_to_ms(self.start_sample);
        let mut samples: Vec<i16> = Vec::new();
        std::mem::swap(&mut samples, &mut self.samples);
        self.start_sample = self.start_sample + samples.len() as u64;
        self.remeasure();
        Some(PendingWindow { offset_ms, samples })
    }
}

proof fn lemma_quietest(s: Seq<i16>, lo: int, hi: int)
    requires
        lo < hi,
    ensures
        lo <= quietest(s, lo, hi) < hi,
        forall|j: int|
            lo <= j < hi ==> frame_energy(s, quietest(s, lo, hi)) <= #[trigger] frame_energy(s, j),
    decreases hi - lo,
{
    if hi > lo + 1 {
        lemma_quietest(s, lo, hi - 1);
    }
}

/// A full window is cut no more than [`CUT_SEARCH_SECS`] before or after its nominal end,
/// at a whole millisecond, in the middle of a frame that no frame of the search band is
/// quieter than.
pub proof fn lemma_cut_point(s: Seq<i16>)
    requires
        s.len() == LONGEST,
    ensures
        (WINDOW_SECS - CUT_SEARCH_SECS) * TARGET_RATE < cut_point(s) < LONGEST,
        cut_point(s) % 16 == 0,
        cut_point(s) % FRAME as int == FRAME / 2,
        forall|j: int|
            250 <= j < 350 ==> frame_energy(s, cut_point(s) / FRAME as int)
                <= #[trigger] frame_energy(s, j),
{
    lemma_quietest(s, 250, 350);
    let q = quietest(s, 250, 350);
    assert((q * FRAME + FRAME / 2) / FRAME as int == q);
}

/// The samples of windows, in a row.
pub open spec fn flat(windows: Seq<PendingView>) -> Seq<i16>
    decreases windows.len(),
{
    if windows.len() == 0 {
        seq![]
    } else {
        flat(windows.drop_last()) + windows.last().samples
    }
}

/// Every sample that was heard and not yet handed out.
pub open spec fn pending(h: Held) -> Seq<i16> {
    flat(h.ready) + h.samples
}

/// Hearing a sample adds it behind everything that is pending: cutting a window neither
/// loses nor repeats nor reorders a sample.
pub proof fn hearing_loses_nothing(h: Held, sample: i16)
    requires
        h.samples.len() < LONGEST,
    ensures
        pending(heard(h, sample)) == pending(h).push(sample),
{
    let more = h.samples.push(sample);
    if more.len() >= LONGEST {
        lemma_cut_point(more);
        let cut = cut_point(more);
        let after = heard(h, sample);
        assert(after.ready.drop_last() =~= h.ready);
        assert(more.take(cut) + more.skip(cut) =~= more);
        assert(pending(after) =~= flat(h.ready) + (more.take(cut) + more.skip(cut)));
    }
    assert(flat(h.ready) + more =~= pending(h).push(sample));
}

/// Each window that is ready starts where the one before it ended, the window under
/// construction starts where the last of them ended, and every start is a whole number of
/// milliseconds.
pub open spec fn contiguous(h: Held) -> bool {
    &&& h.start % 16 == 0
    &&& forall|i: int|
        #![trigger h.ready[i]]
        0 <= i < h.ready.len() ==> h.ready[i].offset_ms + ms_of(h.ready[i].samples.len()) == if i
            + 1 < h.ready.len() {
            h.ready[i + 1].offset_ms
        } else {
            ms_of(h.start)
        }
}

/// Windows stay contiguous as samples are heard and as windows are handed out.
pub proof fn windows_stay_contiguous(h: Held, sample: i16)
    requires
        h.samples.len() < LONGEST,
        contiguous(h),
    ensures
        contiguous(heard(h, sample)),
        h.ready.len() > 0 ==> contiguous(Held { ready: h.ready.skip(1), ..h }),
{
    let after = heard(h, sample);
    let more = h.samples.push(sample);
    if more.len() >= LONGEST {
        lemma_cut_point(more);
        let n = h.ready.len() as int;
        assert forall|i: int| #![trigger after.ready[i]] 0 <= i < after.ready.len() implies after.ready[i].offset_ms
            + ms_of(after.ready[i].samples.len()) == if i + 1 < after.ready.len() {
            after.ready[i + 1].offset_ms
        } else {
            ms_of(after.start)
        } by {
            if i < n {
                assert(after.ready[i] == h.ready[i]);
                if i + 1 < n {
                    assert(after.ready[i + 1] == h.ready[i + 1]);
                }
            }
        }
    }
    if h.ready.len() > 0 {
        let taken = h.ready.skip(1);
        assert forall|i: int| #![trigger taken[i]] 0 <= i < taken.len() implies taken[i].offset_ms
            + ms_of(taken[i].samples.len()) == if i + 1 < taken.len() {
            taken[i + 1].offset_ms
        } else {
            ms_of(h.start)
        } by {
            assert(taken[i] == h.ready[i + 1]);
        }
    }
}

/// Every window that a full accumulator stages lasts between
/// `WINDOW_SECS - CUT_SEARCH_SECS` and `WINDOW_SECS + CUT_SEARCH_SECS`.
pub proof fn staged_windows_are_bounded(h: Held, sample: i16)
    requires
        h.samples.len() < LONGEST,
    ensures
        heard(h, sample).ready.len() <= h.ready.len() + 1,
        heard(h, sample).samples.len() < LONGEST,
        heard(h, sample).ready.len() == h.ready.len() + 1 ==> (WINDOW_SECS - CUT_SEARCH_SECS)
            * TARGET_RATE < heard(h, sample).ready.last().samples.len() < (WINDOW_SECS
            + CUT_SEARCH_SECS) * TARGET_RATE,
{
    let more = h.samples.push(sample);
    if more.len() >= LONGEST {
        lemma_cut_point(more);
    }
}

/// A decoded, resampled window of audio: where it starts in the source, and the bytes to
/// hand to the engine.
#[derive(Debug, Clone, PartialEq, Eq)]
pub struct Window {
    /// Offset of the first sample from the start of the media. Every time the engine
    /// returns is relative to the window.
    pub offset_ms: u64,
    /// Duration of the window itself.
    pub duration_ms: u64,
    /// 16 kHz mono PCM WAV, header and all.
    pub wav: Vec<u8>,
}

/// `n` as four bytes, the lowest first.
pub open spec fn le32(n: nat) -> Seq<u8> {
    seq![
        (n % 256) as u8,
        (n / 256 % 256) as u8,
        (n / 65536 % 256) as u8,
        (n / 16777216 % 256) as u8,
    ]
}

/// A sample as two bytes, the lowest first, in two's complement.
pub open spec fn le16(x: i16) -> Seq<u8> {
    let n: int = if x < 0 {
        x + 65536
    } else {
        x as int
    };
    seq![(n % 256) as u8, (n / 256) as u8]
}

/// Samples as bytes.
pub open spec fn pcm(samples: Seq<i16>) -> Seq<u8>
    decreases samples.len(),
{
    if samples.len() == 0 {
        seq![]
    } else {
        pcm(samples.drop_last()) + le16(samples.last())
    }
}

/// The WAV file that holds `samples` as 16-bit mono PCM at [`TARGET_RATE`]: the RIFF
/// header, the format chunk, and the data chunk.
pub open spec fn wav_file(samples: Seq<i16>) -> Seq<u8> {
    let size = 2 * samples.len();
    seq![0x52u8, 0x49, 0x46, 0x46] + le32(size + 36) + seq![0x57u8, 0x41, 0x56, 0x45] + seq![
        0x66u8,
        0x6d,
        0x74,
        0x20,
    ] + le32(16) + le16(1) + le16(1) + le32(TARGET_RATE as nat) + le32(2 * TARGET_RATE as nat)
        + le16(2) + le16(16) + seq![0x64u8, 0x61, 0x74, 0x61] + le32(size) + pcm(samples)
}

/// Starts a WAV file with `hound::WavWriter::new` on a vector in memory, for one channel of
/// 16-bit integers at [`TARGET_RATE`], and closes it with `finalize`. A vector grows as it is
/// written to, so neither fails, and what it holds then is the file without samples.
#[verifier::external_body]
fn start_wav() -> (r: Vec<u8>)
    ensures
        r@ == wav_file(seq![]),
{
    let spec = hound::WavSpec {
        channels: 1,
        sample_rate: TARGET_RATE,
        bits_per_sample: 16,
        sample_format: hound::SampleFormat::Int,
    };
    let mut file: Vec<u8> = Vec::new();
    if let Ok(writer) = hound::WavWriter::new(std::io::Cursor::new(&mut file), spec) {
        let _ = writer.finalize();
    }
    file
}

/// Appends one sample to a WAV file in memory, with `hound::WavWriter::new_append`,
/// `write_sample` and `finalize`. Opening reads the header back and goes behind the last
/// sample; writing adds two bytes there; closing brings the two lengths up to date. A
/// vector grows as it is written to, so none of them fails as long as the lengths fit.
#[verifier::external_body]
fn append_sample(file: &mut Vec<u8>, sample: i16)
    requires
        exists|samples: Seq<i16>|
            old(file)@ == #[trigger] wav_file(samples) && 2 * samples.len() + 38 <= u32::MAX,
    ensures
        forall|samples: Seq<i16>|
            old(file)@ == #[trigger] wav_file(samples) && 2 * samples.len() + 38 <= u32::MAX
                ==> final(file)@ == wav_file(samples.push(sample)),
{
    if let Ok(mut writer) = hound::WavWriter::new_append(std::io::Cursor::new(file)) {
        let _ = writer.write_sample(sample);
        let _ = writer.finalize();
    }
}

/// Wraps 16 kHz mono PCM in a WAV file in memory.
pub fn encode_wav(samples: &[i16]) -> (r: Vec<u8>)
    requires
        2 * samples@.len() + 36 <= u32::MAX,
    ensures
        r@ == wav_file(samples@),
{
    let mut file: Vec<u8> = start_wav();
    let mut i: usize = 0;
    assert(samples@.take(0) =~= seq![]);
    while i < samples.len()
        invariant
            i <= samples@.len(),
            2 * samples@.len() + 36 <= u32::MAX,
            file@ == wav_file(samples@.take(i as int)),
        decreases samples@.len() - i,
    {
        append_sample(&mut file, samples[i]);
        i += 1;
        assert(samples@.take(i as int) =~= samples@.take(i - 1).push(samples@[i - 1]));
    }
    assert(samples@.take(i as int) =~= samples@);
    file
}

impl PendingWindow {
    /// When the window ends, from the start of the media.
    pub fn end_ms(&self) -> (r: u64)
        requires
            self@.offset_ms + ms_of(self@.samples.len()) <= u64::MAX,
        ensures
            r == self@.offset_ms + ms_of(self@.samples.len()),
    {
        self.offset_ms + samples_to_ms(self.samples.len() as u64)
    }

    /// The window as the engine gets it.
    pub fn into_window(self) -> (r: Window)
        requires
            2 * self@.samples.len() + 36 <= u32::MAX,
        ensures
            r.offset_ms == self@.offset_ms,
            r.duration_ms == ms_of(self@.samples.len()),
            r.wav@ == wav_file(self@.samples),
    {
        Window {
            offset_ms: self.offset_ms,
            duration_ms: samples_to_ms(self.samples.len() as u64),
            wav: encode_wav(self.samples.as_slice()),
        }
    }
}

/// What can go wrong turning a file into windows. A file of a kind that cannot be read is
/// told apart from a broken one and from a disk that failed.
#[derive(Debug, Clone, PartialEq, Eq)]
pub enum MediaError {
    /// The path does not exist, or could not be opened.
    Io(String),
    /// The container or codec is not one that can be decoded.
    Unsupported(String),
    /// The file opened but carries no audio track.
    NoAudioTrack,
    /// The stream decoded partway and then failed.
    Decode(String),
}

impl MediaError {
    /// The sentence shown to the user.
    pub open spec fn text(self) -> Seq<char> {
        match self {
            MediaError::Io(e) => "could not open the media file: "@ + e@,
            MediaError::Unsupported(e) =>
                "this file's container or audio codec is not supported: "@ + e@,
            MediaError::NoAudioTrack => "this file has no audio track to transcribe"@,
            MediaError::Decode(e) => "the audio stream could not be decoded: "@ + e@,
        }
    }

    /// The sentence shown to the user.
    pub fn message(&self) -> (r: String)
        ensures
            r@ == self.text(),
    {
        match self {
            MediaError::Io(e) => text::concat("could not open the media file: ", e),
            MediaError::Unsupported(e) => text::concat(
                "this file's container or audio codec is not supported: ",
                e,
            ),
            MediaError::NoAudioTrack => "this file has no audio track to transcribe".to_string(),
            MediaError::Decode(e) => text::concat("the audio stream could not be decoded: ", e),
        }
    }
}

/// What a demuxer or decoder reports when it does not deliver, with its own words for it.
#[derive(Debug, Clone, PartialEq, Eq)]
pub enum StreamError {
    /// The stream is over.
    EndOfStream(String),
    /// Reading failed.
    Io(String),
    /// A container or codec that is not supported.
    Unsupported(String),
    /// The source changed tracks.
    Reset(String),
    /// A packet could not be decoded.
    Corrupt(String),
    /// Anything else.
    Other(String),
}

/// What a stream error is to the user. An unsupported file is the answer to why nothing
/// happened, so it is not flattened into a decoding failure.
pub open spec fn media_error(e: StreamError) -> MediaError {
    match e {
        StreamError::Unsupported(what) => MediaError::Unsupported(what),
        StreamError::Io(why) => MediaError::Io(why),
        StreamError::EndOfStream(why) => MediaError::Io(why),
        StreamError::Reset(why) => MediaError::Decode(why),
        StreamError::Corrupt(why) => MediaError::Decode(why),
        StreamError::Other(why) => MediaError::Decode(why),
    }
}

/// Maps what a demuxer or decoder reports onto what the user is told.
pub fn map_stream_error(e: StreamError) -> (r: MediaError)
    ensures
        r == media_error(e),
{
    match e {
        StreamError::Unsupported(what) => MediaError::Unsupported(what),
        StreamError::Io(why) => MediaError::Io(why),
        StreamError::EndOfStream(why) => MediaError::Io(why),
        StreamError::Reset(why) => MediaError::Decode(why),
        StreamError::Corrupt(why) => MediaError::Decode(why),
        StreamError::Other(why) => MediaError::Decode(why),
    }
}

/// A track of a container: whether it carries sound (it declares a sample rate or channels),
/// whether it names a codec, and whether a decoder for that codec could be made.
#[derive(Debug, Clone, Copy, PartialEq, Eq)]
pub struct TrackOffer {
    pub id: u32,
    pub audio: bool,
    pub has_codec: bool,
    pub decodable: bool,
}

impl TrackOffer {
    /// A track that can be read.
    pub open spec fn readable(self) -> bool {
        self.has_codec && self.decodable
    }

    /// Sound that cannot be read: there is no decoder for its codec, or the container names
    /// none that is known.
    pub open spec fn undecodable(self) -> bool {
        self.audio && !self.readable()
    }
}

/// What is said of a file whose sound is in a codec that cannot be decoded.
pub const NO_DECODER: &'static str = "there is no decoder for its audio codec";

/// The first track with a codec that can be decoded. A video file's tracks include the
/// picture, so the first track of all would be wrong.
///
/// Where none can be decoded, a file that carries sound all the same is told apart from one
/// without sound.
pub fn select_track(offers: &[TrackOffer]) -> (r: Result<u32, MediaError>)
    ensures
        match r {
            Ok(id) => exists|i: int|
                #![trigger offers@[i]]
                {
                    &&& 0 <= i < offers@.len()
                    &&& offers@[i].id == id && offers@[i].readable()
                    &&& forall|j: int| 0 <= j < i ==> !(#[trigger] offers@[j]).readable()
                },
            Err(e) => {
                &&& forall|j: int| 0 <= j < offers@.len() ==> !(#[trigger] offers@[j]).readable()
                &&& if exists|j: int|
                    0 <= j < offers@.len() && (#[trigger] offers@[j]).undecodable() {
                    e matches MediaError::Unsupported(why) && why@ == NO_DECODER@
                } else {
                    e == MediaError::NoAudioTrack
                }
            },
        },
{
    let mut i: usize = 0;
    let mut heard: bool = false;
    while i < offers.len()
        invariant
            i <= offers@.len(),
            forall|j: int| 0 <= j < i ==> !(#[trigger] offers@[j]).readable(),
            heard == exists|j: int| 0 <= j < i && (#[trigger] offers@[j]).undecodable(),
        decreases offers@.len() - i,
    {
        let offer = offers[i];
        if offer.has_codec && offer.decodable {
            return Ok(offer.id);
        }
        if offer.audio {
            assert(offers@[i as int].undecodable());
            heard = true;
        }
        i += 1;
    }
    if heard {
        return Err(MediaError::Unsupported(NO_DECODER.to_string()));
    }
    Err(MediaError::NoAudioTrack)
}

/// How long the media lasts, where the container says so: a count of frames at the track's
/// own rate.
pub open spec fn declared_ms(frames: Option<u64>, rate: Option<u32>) -> Option<nat> {
    match (frames, rate) {
        (Some(f), Some(r)) if r > 0 => Some((f * 1000 / r as int) as nat),
        _ => None,
    }
}

/// How long the media lasts, where the container says so.
pub fn total_ms(frames: Option<u64>, rate: Option<u32>) -> (r: Option<u64>)
    requires
        declared_ms(frames, rate) matches Some(ms) ==> ms <= u64::MAX,
    ensures
        match r {
            Some(ms) => declared_ms(frames, rate) == Some(ms as nat),
            None => declared_ms(frames, rate) is None,
        },
{
    match (frames, rate) {
        (Some(f), Some(r)) => {
            if r > 0 {
                let wide: u128 = (f as u128) * 1000 / (r as u128);
                Some(wide as u64)
            } else {
                None
            }
        },
        _ => None,
    }
}

/// What a decoding loop does next.
#[derive(Debug, Clone, PartialEq, Eq)]
pub enum Step {
    /// Go on with what was delivered.
    Use,
    /// Leave it and ask for the next packet.
    Skip,
    /// Stop: what was decoded so far is all there is.
    Finish,
    /// Give up.
    Fail(MediaError),
}

/// After asking for a packet: packets of other tracks are left. The end of the stream, and
/// a source that changes tracks, end the decoding; everything decoded so far is still valid.
pub fn after_packet(read: Result<u32, StreamError>, track: u32) -> (r: Step)
    ensures
        r == match read {
            Ok(id) => if id == track {
                Step::Use
            } else {
                Step::Skip
            },
            Err(StreamError::EndOfStream(_)) => Step::Finish,
            Err(StreamError::Reset(_)) => Step::Finish,
            Err(e) => Step::Fail(media_error(e)),
        },
{
    match read {
        Ok(id) => {
            if id == track {
                Step::Use
            } else {
                Step::Skip
            }
        },
        Err(StreamError::EndOfStream(_)) => Step::Finish,
        Err(StreamError::Reset(_)) => Step::Finish,
        Err(e) => Step::Fail(map_stream_error(e)),
    }
}

/// After decoding a packet: a corrupt one is left, which loses a few milliseconds rather
/// than the whole job.
pub fn after_decode(decoded: Result<(), StreamError>) -> (r: Step)
    ensures
        r == match decoded {
            Ok(_) => Step::Use,
            Err(StreamError::Corrupt(_)) => Step::Skip,
            Err(e) => Step::Fail(media_error(e)),
        },
{
    match decoded {
        Ok(_) => Step::Use,
        Err(StreamError::Corrupt(_)) => Step::Skip,
        Err(e) => Step::Fail(map_stream_error(e)),
    }
}

/// `h` after a run of samples.
pub open spec fn heard_all(h: Held, samples: Seq<i16>) -> Held
    decreases samples.len(),
{
    if samples.len() == 0 {
        h
    } else {
        heard(heard_all(h, samples.drop_last()), samples.last())
    }
}

proof fn lemma_heard_all(h: Held, samples: Seq<i16>)
    requires
        h.samples.len() < LONGEST,
    ensures
        heard_all(h, samples).samples.len() < LONGEST,
        heard_all(h, samples).start + heard_all(h, samples).samples.len() == h.start
            + h.samples.len() + samples.len(),
    decreases samples.len(),
{
    if samples.len() > 0 {
        lemma_heard_all(h, samples.drop_last());
        let before = heard_all(h, samples.drop_last());
        let more = before.samples.push(samples.last());
        if more.len() >= LONGEST {
            lemma_cut_point(more);
        }
    }
}

/// However the samples of a file come in, what is pending afterwards is what was pending before
/// with all of them behind it, and windows that were contiguous still are.
pub proof fn feeding_loses_nothing(h: Held, samples: Seq<i16>)
    requires
        h.samples.len() < LONGEST,
    ensures
        pending(heard_all(h, samples)) == pending(h) + samples,
        contiguous(h) ==> contiguous(heard_all(h, samples)),
    decreases samples.len(),
{
    if samples.len() == 0 {
        assert(pending(h) + samples =~= pending(h));
    } else {
        let front = samples.drop_last();
        let before = heard_all(h, front);
        feeding_loses_nothing(h, front);
        lemma_heard_all(h, front);
        hearing_loses_nothing(before, samples.last());
        if contiguous(h) {
            windows_stay_contiguous(before, samples.last());
        }
        assert((pending(h) + front).push(samples.last()) =~= pending(h) + samples);
    }
}

/// The windows of a list as mathematical values.
pub open spec fn window_views(windows: Seq<PendingWindow>) -> Seq<PendingView> {
    windows.map_values(|w: PendingWindow| w@)
}

impl WindowAccumulator {
    /// Hears a packet's worth of samples, and hands out the windows that it completed, in
    /// order.
    pub fn feed(&mut self, samples: &[i16]) -> (r: Vec<PendingWindow>)
        requires
            old(self).wf(),
            old(self)@.start + old(self)@.samples.len() + samples@.len() <= u64::MAX,
        ensures
            final(self).wf(),
            window_views(r@) == heard_all(old(self)@, samples@).ready,
            final(self)@ == (Held { ready: seq![], ..heard_all(old(self)@, samples@) }),
    {
        let mut i: usize = 0;
        assert(samples@.take(0) =~= seq![]);
        while i < samples.len()
            invariant
                i <= samples@.len(),
                old(self)@.start + old(self)@.samples.len() + samples@.len() <= u64::MAX,
                old(self)@.samples.len() < LONGEST,
                self.wf(),
                self@ == heard_all(old(self)@, samples@.take(i as int)),
            decreases samples@.len() - i,
        {
            proof {
                lemma_heard_all(old(self)@, samples@.take(i as int));
                assert(samples@.take(i + 1).drop_last() =~= samples@.take(i as int));
            }
            self.push(samples[i]);
            i += 1;
        }
        assert(samples@.take(i as int) =~= samples@);
        let ghost all = heard_all(old(self)@, samples@);
        let mut out: Vec<PendingWindow> = Vec::new();
        assert(window_views(out@) =~= seq![]);
        assert(seq![] + all.ready =~= all.ready);
        loop
            invariant
                self.wf(),
                window_views(out@) + self@.ready == all.ready,
                self@ == (Held { ready: self@.ready, ..all }),
            ensures
                self@.ready.len() == 0,
            decreases self@.ready.len(),
        {
            let ghost before = self@.ready;
            let ghost done = window_views(out@);
            match self.take_ready() {
                None => {
                    break;
                },
                Some(w) => {
                    assert(before =~= seq![w@] + self@.ready);
                    out.push(w);
                    assert(window_views(out@) =~= done.push(w@));
                    assert(window_views(out@) + self@.ready =~= done + before);
                },
            }
        }
        assert(self@.ready =~= seq![]);
        assert(window_views(out@) + self@.ready =~= window_views(out@));
        out
    }
}

/// The extensions, in lower case, of the files that are attempted.
pub open spec fn media_extension(e: Seq<char>) -> bool {
    ||| e == "mp4"@
    ||| e == "m4v"@
    ||| e == "mov"@
    ||| e == "mkv"@
    ||| e == "webm"@
    ||| e == "avi"@
    ||| e == "m4a"@
    ||| e == "mp3"@
    ||| e == "wav"@
    ||| e == "flac"@
    ||| e == "aac"@
    ||| e == "ogg"@
    ||| e == "oga"@
    ||| e == "opus"@
    ||| e == "caf"@
    ||| e == "aiff"@
}

/// Whether an extension is one of a file that is attempted, whatever its case.
///
/// By extension, and that is deliberate: this is not what decides whether a decode
/// succeeds. It keeps the picker from listing a whole home directory, and gives a new job a
/// cheap, honest rejection.
pub open spec fn attempted(extension: Option<Seq<char>>) -> bool {
    match extension {
        Some(e) => media_extension(text::ascii_lower(e)),
        None => false,
    }
}

/// Whether an extension is one of a file that is attempted.
pub fn is_media_extension(extension: &str) -> (r: bool)
    ensures
        r == attempted(Some(extension@)),
{
    let low = text::ascii_lower_of(text::chars_of(extension).as_slice());
    let e = low.as_slice();
    text::spells(e, "mp4") || text::spells(e, "m4v") || text::spells(e, "mov") || text::spells(e, "mkv") || text::spells(e, "webm") || text::spells(e, "avi") || text::spells(e, "m4a") || text::spells(e, "mp3") || text::spells(e, "wav") || text::spells(e, "flac") || text::spells(e, "aac") || text::spells(e, "ogg") || text::spells(e, "oga") || text::spells(e, "opus") || text::spells(e, "caf") || text::spells(e, "aiff")
}

/// Whether the extension of `path` is one of a file that is attempted.
#[must_use]
pub fn is_media_path(path: &MediaPath) -> (r: bool)
    ensures
        r == attempted(path@.extension),
{
    match &path.extension {
        Some(e) => is_media_extension(e),
        None => false,
    }
}

/// A run of samples lasts its whole milliseconds: sixteen samples each, and less than one more.
pub proof fn sixteen_samples_last_a_millisecond(n: nat)
    ensures
        16 * ms_of(n) <= n < 16 * ms_of(n) + 16,
{
}

/// Energy is the sum of the squares: that of one sample is its square, and that of two runs is
/// that of both.
pub proof fn energy_adds_up(a: Seq<i16>, b: Seq<i16>, x: i16)
    ensures
        energy(seq![]) == 0,
        energy(seq![x]) == x * x,
        energy(a + b) == energy(a) + energy(b),
    decreases b.len(),
{
    assert(seq![x].drop_last() =~= seq![]);
    let v = x as int;
    assert(v * v >= 0) by (nonlinear_arith);
    reveal_with_fuel(energy, 2);
    if b.len() == 0 {
        assert(a + b =~= a);
    } else {
        energy_adds_up(a, b.drop_last(), x);
        assert((a + b).drop_last() =~= a + b.drop_last());
    }
}

proof fn lemma_quietest_first(s: Seq<i16>, lo: int, hi: int)
    requires
        lo < hi,
    ensures
        forall|j: int|
            lo <= j < quietest(s, lo, hi) ==> frame_energy(s, quietest(s, lo, hi))
                < #[trigger] frame_energy(s, j),
    decreases hi - lo,
{
    lemma_quietest(s, lo, hi);
    if hi > lo + 1 {
        lemma_quietest(s, lo, hi - 1);
        lemma_quietest_first(s, lo, hi - 1);
    }
}

/// A full window of 35 s is cut between its 25th second and its end, in the middle of the tenth
/// of a second that is quietest there, the first of them where several are.
pub proof fn windows_are_cut_where_it_is_quietest(s: Seq<i16>)
    requires
        s.len() == 560_000,
    ensures
        ({
            let q = cut_point(s) / 1600;
            let frame = |j: int| energy(s.subrange(j * 1600, j * 1600 + 1600));
            &&& 250 <= q < 350
            &&& cut_point(s) == q * 1600 + 800
            &&& forall|j: int| 250 <= j < 350 ==> frame(q) <= #[trigger] frame(j)
            &&& forall|j: int| 250 <= j < q ==> frame(q) < #[trigger] frame(j)
        }),
{
    lemma_quietest(s, 250, 350);
    lemma_quietest_first(s, 250, 350);
    let q = quietest(s, 250, 350);
    let frame = |j: int| energy(s.subrange(j * 1600, j * 1600 + 1600));
    assert(cut_point(s) == q * 1600 + 800);
    assert forall|j: int| #[trigger] frame(j) == frame_energy(s, j) by {}
}

/// A sample is put behind the others, and a window is staged when 35 s are full and at no other
/// time. It is what stands in front of the cut, from the time at which the first of its samples
/// is heard; what stands behind the cut is the start of the next one.
pub proof fn a_window_is_staged_when_it_is_full(h: Held, sample: i16)
    requires
        h.samples.len() < 560_000,
    ensures
        ({
            let more = h.samples.push(sample);
            let after = heard(h, sample);
            let k = cut_point(more);
            &&& more.len() < 560_000 ==> after.samples == more && after.start == h.start
                && after.ready == h.ready
            &&& more.len() == 560_000 ==> {
                &&& after.ready.len() == h.ready.len() + 1
                &&& after.ready.drop_last() == h.ready
                &&& after.ready.last().samples == more.take(k)
                &&& 16 * after.ready.last().offset_ms <= h.start < 16 * after.ready.last().offset_ms
                    + 16
                &&& after.samples == more.skip(k)
                &&& after.start == h.start + k
            }
        }),
{
    let more = h.samples.push(sample);
    if more.len() == 560_000 {
        lemma_cut_point(more);
        assert(heard(h, sample).ready.drop_last() =~= h.ready);
    }
}

/// Feeding some samples and then others is feeding them all.
pub proof fn samples_may_come_in_any_portions(h: Held, a: Seq<i16>, b: Seq<i16>, x: i16)
    ensures
        heard_all(h, seq![]) == h,
        heard_all(h, seq![x]) == heard(h, x),
        heard_all(h, a + b) == heard_all(heard_all(h, a), b),
    decreases b.len(),
{
    reveal_with_fuel(heard_all, 2);
    assert(seq![x].drop_last() =~= seq![]);
    if b.len() == 0 {
        assert(a + b =~= a);
    } else {
        samples_may_come_in_any_portions(h, a, b.drop_last(), x);
        assert((a + b).drop_last() =~= a + b.drop_last());
    }
}

/// The number that bytes stand for, the lowest first.
pub open spec fn from_bytes(b: Seq<u8>) -> nat
    decreases b.len(),
{
    if b.len() == 0 {
        0
    } else {
        b[0] as nat + 256 * from_bytes(b.drop_first())
    }
}

/// A WAV file reads back: 44 bytes of header that name the format, one channel of 16-bit
/// integers at 16 kHz, and say how long the file and the samples are, and then two bytes for
/// each sample, in order.
#[verifier::spinoff_prover]
#[verifier::rlimit(60)]
pub proof fn a_wav_file_reads_back(samples: Seq<i16>, i: int)
    requires
        2 * samples.len() + 36 <= u32::MAX,
    ensures
        ({
            let f = wav_file(samples);
            let n = 2 * samples.len();
            &&& f.len() == 44 + n
            &&& f.take(4) == seq![82u8, 73, 70, 70]
            &&& from_bytes(f.subrange(4, 8)) == n + 36
            &&& f.subrange(8, 16) == seq![87u8, 65, 86, 69, 102, 109, 116, 32]
            &&& from_bytes(f.subrange(16, 20)) == 16
            &&& from_bytes(f.subrange(20, 22)) == 1
            &&& from_bytes(f.subrange(22, 24)) == 1
            &&& from_bytes(f.subrange(24, 28)) == 16_000
            &&& from_bytes(f.subrange(28, 32)) == 32_000
            &&& from_bytes(f.subrange(32, 34)) == 2
            &&& from_bytes(f.subrange(34, 36)) == 16
            &&& f.subrange(36, 40) == seq![100u8, 97, 116, 97]
            &&& from_bytes(f.subrange(40, 44)) == n
            &&& 0 <= i < samples.len() ==> from_bytes(f.subrange(44 + 2 * i, 46 + 2 * i))
                == if samples[i] < 0 {
                samples[i] + 65_536
            } else {
                samples[i] as int
            }
        }),
{
    let f = wav_file(samples);
    let n = 2 * samples.len();
    lemma_pcm_len(samples);
    assert(f.take(4) =~= seq![82u8, 73, 70, 70]);
    assert(f.subrange(4, 8) =~= le32(n + 36));
    assert(f.subrange(8, 16) =~= seq![87u8, 65, 86, 69, 102, 109, 116, 32]);
    assert(f.subrange(16, 20) =~= le32(16));
    assert(f.subrange(20, 22) =~= le16(1));
    assert(f.subrange(22, 24) =~= le16(1));
    assert(f.subrange(24, 28) =~= le32(16_000));
    assert(f.subrange(28, 32) =~= le32(32_000));
    assert(f.subrange(32, 34) =~= le16(2));
    assert(f.subrange(34, 36) =~= le16(16));
    assert(f.subrange(36, 40) =~= seq![100u8, 97, 116, 97]);
    assert(f.subrange(40, 44) =~= le32(n));
    lemma_le32(n + 36);
    lemma_le32(16);
    lemma_le32(16_000);
    lemma_le32(32_000);
    lemma_le32(n);
    lemma_le16(1);
    lemma_le16(2);
    lemma_le16(16);
    if 0 <= i < samples.len() {
        lemma_pcm_at(samples, i);
        assert(f.subrange(44 + 2 * i, 46 + 2 * i) =~= pcm(samples).subrange(2 * i, 2 * i + 2));
        lemma_le16(samples[i]);
    }
}

proof fn lemma_le32(n: nat)
    requires
        n <= u32::MAX,
    ensures
        from_bytes(le32(n)) == n,
{
    let b = le32(n);
    reveal_with_fuel(from_bytes, 5);
    assert(b.drop_first() =~= seq![b[1], b[2], b[3]]);
    assert(b.drop_first().drop_first() =~= seq![b[2], b[3]]);
    assert(b.drop_first().drop_first().drop_first() =~= seq![b[3]]);
    assert(b.drop_first().drop_first().drop_first().drop_first() =~= seq![]);
}

proof fn lemma_le16(x: i16)
    ensures
        from_bytes(le16(x)) == if x < 0 {
            x + 65_536
        } else {
            x as int
        },
{
    let b = le16(x);
    reveal_with_fuel(from_bytes, 3);
    assert(b.drop_first() =~= seq![b[1]]);
    assert(b.drop_first().drop_first() =~= seq![]);
}

proof fn lemma_pcm_len(samples: Seq<i16>)
    ensures
        pcm(samples).len() == 2 * samples.len(),
    decreases samples.len(),
{
    if samples.len() > 0 {
        lemma_pcm_len(samples.drop_last());
    }
}

proof fn lemma_pcm_at(samples: Seq<i16>, i: int)
    requires
        0 <= i < samples.len(),
    ensures
        pcm(samples).len() == 2 * samples.len(),
        pcm(samples).subrange(2 * i, 2 * i + 2) == le16(samples[i]),
    decreases samples.len(),
{
    let front = samples.drop_last();
    lemma_pcm_len(front);
    lemma_pcm_len(samples);
    if i < front.len() {
        lemma_pcm_at(front, i);
        assert(pcm(samples).subrange(2 * i, 2 * i + 2) =~= pcm(front).subrange(2 * i, 2 * i + 2));
    } else {
        assert(pcm(samples).subrange(2 * i, 2 * i + 2) =~= le16(samples[i]));
    }
}

/// How long media lasts is known where both a count and a rate of more than zero are, and then
/// it is the count over the rate, in whole milliseconds.
pub proof fn a_declared_length_is_frames_over_rate(frames: Option<u64>, rate: Option<u32>)
    ensures
        declared_ms(frames, rate) is Some <==> frames is Some && rate is Some && rate->0 > 0,
        declared_ms(frames, rate) matches Some(ms) ==> ms * rate->0 <= frames->0 * 1000 < (ms + 1)
            * rate->0,
{
    if let (Some(f), Some(r)) = (frames, rate) {
        if r > 0 {
            let all = f * 1000;
            let per = r as int;
            let ms = all / per;
            assert(ms * per <= all < (ms + 1) * per) by (nonlinear_arith)
                requires
                    ms == all / per,
                    per > 0,
            ;
            assert(ms >= 0) by (nonlinear_arith)
                requires
                    ms == all / per,
                    per > 0,
                    all >= 0,
            ;
        }
    }
}

/// What a stream reports is told for what it is: a kind that cannot be read, a disk that
/// failed, or data that is broken, in the words of the report.
pub proof fn reports_are_told_apart(why: String)
    ensures
        media_error(StreamError::Unsupported(why)) == MediaError::Unsupported(why),
        media_error(StreamError::Io(why)) == MediaError::Io(why),
        media_error(StreamError::EndOfStream(why)) == MediaError::Io(why),
        media_error(StreamError::Corrupt(why)) == MediaError::Decode(why),
        media_error(StreamError::Reset(why)) == MediaError::Decode(why),
        media_error(StreamError::Other(why)) == MediaError::Decode(why),
        MediaError::Io(why).text() == "could not open the media file: "@ + why@,
        MediaError::Unsupported(why).text()
            == "this file's container or audio codec is not supported: "@ + why@,
        MediaError::NoAudioTrack.text() == "this file has no audio track to transcribe"@,
        MediaError::Decode(why).text() == "the audio stream could not be decoded: "@ + why@,
{
}

/// A track is read if it has a codec and that can be decoded, whatever it carries; sound in any
/// other is sound that cannot be decoded.
pub proof fn tracks_are_told_apart(t: TrackOffer)
    ensures
        t.has_codec && t.decodable ==> t.readable() && !t.undecodable(),
        !t.has_codec || !t.decodable ==> !t.readable() && t.undecodable() == t.audio,
{
}

/// The extensions of the files that are attempted.
pub open spec fn extensions() -> Seq<Seq<char>> {
    seq![
        "mp4"@,
        "m4v"@,
        "mov"@,
        "mkv"@,
        "webm"@,
        "avi"@,
        "m4a"@,
        "mp3"@,
        "wav"@,
        "flac"@,
        "aac"@,
        "ogg"@,
        "oga"@,
        "opus"@,
        "caf"@,
        "aiff"@,
    ]
}

/// A file is attempted if its extension is on the list, whatever its case, and no other file is.
pub proof fn only_listed_extensions_are_attempted(e: Seq<char>)
    ensures
        !attempted(None),
        attempted(Some(e)) <==> extensions().contains(text::ascii_lower(e)),
{
    let low = text::ascii_lower(e);
    let all = extensions();
    assert(all[0] == "mp4"@ && all[1] == "m4v"@ && all[2] == "mov"@ && all[3] == "mkv"@);
    assert(all[4] == "webm"@ && all[5] == "avi"@ && all[6] == "m4a"@ && all[7] == "mp3"@);
    assert(all[8] == "wav"@ && all[9] == "flac"@ && all[10] == "aac"@ && all[11] == "ogg"@);
    assert(all[12] == "oga"@ && all[13] == "opus"@ && all[14] == "caf"@ && all[15] == "aiff"@);
    if all.contains(low) {
        let i = choose|i: int| 0 <= i < all.len() && all[i] == low;
        assert(media_extension(low));
    }
}

} // verus!
