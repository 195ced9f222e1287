//! The worker: one job at a time, from the source to the file.
//!
//! Everything a run decides is decided here; what it asks for (a look at the disk, a window
//! of audio, a transcription, a completion, a file to be written) comes back as an event.
//!
//! A transcription that fails is fatal to the job: a subtitle file without its middle is not
//! a subtitle file. A translation that fails is not: a cue without one keeps its source text.
//! Writing next to the source may fail as well: the file can still be downloaded.

use crate::cues;
use crate::cues::Cue;
use crate::cues::CueView;
use crate::cues::Format;
use crate::languages;
use crate::languages::Language;
use crate::library;
use crate::library::MediaPath;
use crate::library::PathView;
use crate::library::SourceProbe;
use crate::store;
use crate::store::Job;
use crate::store::JobView;
use crate::store::RecordView;
use crate::store::Status;
use crate::store::StoreView;
use crate::store::SubtitleStore;
use crate::stt::Transcription;
use crate::text;
use crate::translate;
use crate::translate::Phase;
use crate::translate::Session;
use crate::translate::SessionView;
use vstd::prelude::*;

verus! {

/// How much of the progress transcription owns, in millionths.
pub const TRANSCRIBE_SHARE: u64 = 800_000;

/// Where the progress stands when only the file is left to be written, in millionths.
pub const WRITE_SHARE: u64 = 980_000;

/// How many decoded windows may wait for the engine.
pub const WINDOW_QUEUE: usize = 2;

/// `H:MM:SS`, or `M:SS` under an hour.
pub open spec fn clock_text(ms: nat) -> Seq<char> {
    let total = ms / 1000;
    if total / 3600 > 0 {
        text::decimal(total / 3600) + seq![':'] + text::padded(total % 3600 / 60, 2) + seq![':']
            + text::padded(total % 60, 2)
    } else {
        text::decimal(total % 3600 / 60) + seq![':'] + text::padded(total % 60, 2)
    }
}

/// `H:MM:SS`, or `M:SS` under an hour, for the line that shows progress.
pub fn clock(ms: u64) -> (r: String)
    ensures
        r@ == clock_text(ms as nat),
{
    let total: u64 = ms / 1000;
    let hours: u64 = total / 3600;
    let minutes: u64 = total % 3600 / 60;
    let mut out: Vec<char> = Vec::new();
    if hours > 0 {
        text::append(&mut out, text::decimal_of(hours).as_slice());
        out.push(':');
        text::append(&mut out, text::padded_of(minutes, 2).as_slice());
    } else {
        text::append(&mut out, text::decimal_of(minutes).as_slice());
    }
    out.push(':');
    text::append(&mut out, text::padded_of(total % 60, 2).as_slice());
    assert(out@ =~= clock_text(ms as nat));
    text::string_of(out.as_slice())
}

/// The step that is shown while windows are transcribed.
pub fn transcribe_stage(done_ms: u64, total_ms: Option<u64>) -> (r: String)
    ensures
        r@ == match total_ms {
            Some(t) => "Transcribing "@ + clock_text(done_ms as nat) + " of "@ + clock_text(
                t as nat,
            ),
            None => "Transcribing "@ + clock_text(done_ms as nat),
        },
{
    let mut out = text::chars_of("Transcribing ");
    text::append_str(&mut out, &clock(done_ms));
    if let Some(t) = total_ms {
        text::append_str(&mut out, " of ");
        text::append_str(&mut out, &clock(t));
    }
    text::string_of(out.as_slice())
}

/// How far a job is while windows are transcribed: its share of the progress in proportion to
/// what has been decoded, and none where the length of the media is not known.
pub open spec fn transcribe_share(done_ms: nat, total_ms: Option<u64>) -> nat {
    match total_ms {
        Some(t) if t > 0 => if done_ms >= t {
            TRANSCRIBE_SHARE as nat
        } else {
            done_ms * TRANSCRIBE_SHARE as nat / t as nat
        },
        _ => 0,
    }
}

/// How far a job is while windows are transcribed.
pub fn transcribe_progress(done_ms: u64, total_ms: Option<u64>) -> (r: u64)
    ensures
        r == transcribe_share(done_ms as nat, total_ms),
        r <= TRANSCRIBE_SHARE,
{
    match total_ms {
        Some(t) => {
            if t == 0 {
                0
            } else if done_ms >= t {
                TRANSCRIBE_SHARE
            } else {
                assert(0 <= done_ms as int * TRANSCRIBE_SHARE as int <= u128::MAX) by (nonlinear_arith)
                    requires
                        0 <= done_ms <= u64::MAX,
                        0 <= TRANSCRIBE_SHARE <= u64::MAX,
                ;
                let wide: u128 = (done_ms as u128) * (TRANSCRIBE_SHARE as u128) / (t as u128);
                assert(wide <= TRANSCRIBE_SHARE) by (nonlinear_arith)
                    requires
                        wide == done_ms as int * TRANSCRIBE_SHARE as int / t as int,
                        0 <= done_ms < t,
                ;
                wide as u64
            }
        },
        None => 0,
    }
}

/// Where the copy of a job's file that can be downloaded lives, below the data directory.
pub open spec fn data_path(id: Seq<char>, extension: Seq<char>) -> Seq<char> {
    "subtitles/"@ + id + seq!['.'] + extension
}

/// Where the copy of a job's file that can be downloaded lives, below the data directory.
pub fn data_output_path(job_id: &str, extension: &str) -> (r: String)
    ensures
        r@ == data_path(job_id@, extension@),
{
    let mut out = text::chars_of("subtitles/");
    text::append_str(&mut out, job_id);
    out.push('.');
    text::append_str(&mut out, extension);
    assert(out@ =~= data_path(job_id@, extension@));
    text::string_of(out.as_slice())
}

/// The files that a job may have left below the data directory.
pub fn data_output_paths(job_id: &str) -> (r: Vec<String>)
    ensures
        text::strings(r@) == seq![data_path(job_id@, "srt"@), data_path(job_id@, "vtt"@)],
{
    let mut out: Vec<String> = Vec::new();
    out.push(data_output_path(job_id, "srt"));
    out.push(data_output_path(job_id, "vtt"));
    assert(text::strings(out@) =~= seq![
        data_path(job_id@, "srt"@),
        data_path(job_id@, "vtt"@),
    ]);
    out
}

/// Whether a character is a letter, in the sense of Unicode.
pub uninterp spec fn alphabetic(c: char) -> bool;

/// `char::is_alphabetic` says whether a character has the Alphabetic property, which depends
/// on the character alone.
pub assume_specification[ char::is_alphabetic ](c: char) -> (r: bool)
    ensures
        r == alphabetic(c),
;

/// How many letters `s` has.
pub open spec fn letters(s: Seq<char>) -> nat
    decreases s.len(),
{
    if s.len() == 0 {
        0
    } else if alphabetic(s.last()) {
        letters(s.drop_last()) + 1
    } else {
        letters(s.drop_last())
    }
}

/// How many ASCII letters `s` has.
pub open spec fn ascii_letters(s: Seq<char>) -> nat
    decreases s.len(),
{
    if s.len() == 0 {
        0
    } else if alphabetic(s.last()) && s.last() as u32 <= 0x7f {
        ascii_letters(s.drop_last()) + 1
    } else {
        ascii_letters(s.drop_last())
    }
}

/// The text of the first twenty cues.
pub open spec fn sample_text(cues: Seq<CueView>) -> Seq<char> {
    let first = if cues.len() > 20 {
        cues.take(20)
    } else {
        cues
    };
    text::join(first.map_values(|c: CueView| c.text), seq![' '])
}

/// Whether the audio is already in the target language, as far as that can be told: the target
/// is English, and at least 95 of 100 letters of the sample are ASCII.
pub open spec fn already_in(cues: Seq<CueView>, language: Language) -> bool {
    let sample = sample_text(cues);
    &&& language.code@ == "en"@
    &&& text::trim(sample).len() > 0
    &&& letters(sample) > 0
    &&& ascii_letters(sample) * 100 / letters(sample) >= 95
}

/// Whether the audio is already in the target language, so that there is nothing to translate.
///
/// Deliberately crude. Skipping a translation that was needed leaves a file that is plainly
/// not translated; running one that was not needed rewrites subtitles that were right.
pub fn transcript_is_target(list: &[Cue], language: &Language) -> (r: bool)
    ensures
        r == already_in(cues::views(list@), *language),
{
    if !text::same_text(language.code, "en") {
        return false;
    }
    let ghost v = cues::views(list@);
    let n: usize = if list.len() > 20 {
        20
    } else {
        list.len()
    };
    let ghost first = v.take(n as int);
    let mut parts: Vec<Vec<char>> = Vec::new();
    let mut i: usize = 0;
    while i < n
        invariant
            i <= n <= list@.len(),
            v == cues::views(list@),
            text::texts(parts@) == v.take(i as int).map_values(|c: CueView| c.text),
        decreases n - i,
    {
        let ghost before = text::texts(parts@);
        parts.push(text::chars_of(&list[i].text));
        assert(text::texts(parts@) =~= before.push(v[i as int].text));
        i += 1;
        assert(v.take(i as int).map_values(|c: CueView| c.text) =~= v.take(i - 1).map_values(
            |c: CueView| c.text,
        ).push(v[i - 1].text));
    }
    assert(v.take(n as int) =~= if v.len() > 20 {
        v.take(20)
    } else {
        v
    });
    let sample = text::join_of(parts.as_slice(), ' ');
    if text::trim_of(sample.as_slice()).len() == 0 {
        return false;
    }
    let mut all: u64 = 0;
    let mut ascii: u64 = 0;
    let mut k: usize = 0;
    while k < sample.len()
        invariant
            k <= sample@.len(),
            ascii <= all <= k,
            all == letters(sample@.take(k as int)),
            ascii == ascii_letters(sample@.take(k as int)),
        decreases sample@.len() - k,
    {
        assert(sample@.take(k + 1).drop_last() =~= sample@.take(k as int));
        let c = sample[k];
        if c.is_alphabetic() {
            all += 1;
            if c as u32 <= 0x7f {
                ascii += 1;
            }
        }
        k += 1;
    }
    assert(sample@.take(k as int) =~= sample@);
    if all == 0 {
        return false;
    }
    let share: u128 = (ascii as u128) * 100 / (all as u128);
    share >= 95
}

/// Whether the job `id` was canceled, or deleted, while it was running.
pub open spec fn canceled(s: StoreView, id: Seq<char>) -> bool {
    forall|i: int|
        0 <= i < s.records.len() && (#[trigger] s.records[i]).job.id == id
            ==> s.records[i].job.status == Status::Canceled
}

/// Whether the user canceled, or deleted, the job while it was running. A job that is gone was
/// deleted: stopping is the right answer.
pub fn is_canceled(jobs: &SubtitleStore, id: &str) -> (r: bool)
    requires
        jobs.wf(),
    ensures
        r == canceled(jobs@, id@),
{
    match jobs.get_job(id) {
        Some(job) => {
            proof {
                let k = choose|i: int|
                    0 <= i < jobs@.records.len() && (#[trigger] jobs@.records[i]).job.id == id@;
                assert forall|i: int|
                    0 <= i < jobs@.records.len() && (#[trigger] jobs@.records[i]).job.id
                        == id@ implies i == k by {
                    if i < k {
                        assert(jobs@.records[i].job.id != jobs@.records[k].job.id);
                    } else if k < i {
                        assert(jobs@.records[k].job.id != jobs@.records[i].job.id);
                    }
                }
            }
            match job.status {
                Status::Canceled => true,
                _ => false,
            }
        },
        None => true,
    }
}

/// Where a run is.
#[derive(Debug, Clone, Copy, PartialEq, Eq, Structural)]
pub enum Stage {
    /// Nothing has happened yet.
    Ready,
    /// The source is being looked up.
    Looking,
    /// The next window is waited for.
    Listening,
    /// A window that starts and lasts this long is being transcribed.
    Hearing { offset_ms: u64, duration_ms: u64 },
    /// The model is being asked.
    Translating,
    /// The file is being written.
    Writing,
    /// The file is being written next to the source as well.
    Placing,
    /// The run is over.
    Over,
}

/// One run of a job.
#[derive(Debug)]
pub struct Run {
    pub job: Job,
    /// The path of the source, taken apart.
    pub source: MediaPath,
    pub stage: Stage,
    pub cues: Vec<Cue>,
    /// How many windows were transcribed.
    pub windows: u64,
    pub language: Option<Language>,
    pub session: Option<Session>,
    /// The file as it is written.
    pub content: String,
}

/// A run as a mathematical value.
#[verifier::ext_equal]
pub struct RunView {
    pub job: JobView,
    pub source: PathView,
    pub stage: Stage,
    pub cues: Seq<CueView>,
    pub windows: u64,
    pub language: Option<Language>,
    pub session: Option<SessionView>,
    pub content: Seq<char>,
}

impl View for Run {
    type V = RunView;

    open spec fn view(&self) -> RunView {
        RunView {
            job: self.job@,
            source: self.source@,
            stage: self.stage,
            cues: cues::views(self.cues@),
            windows: self.windows,
            language: self.language,
            session: match self.session {
                Some(s) => Some(s@),
                None => None,
            },
            content: self.content@,
        }
    }
}

/// What a run asks for.
#[derive(Debug, Clone, PartialEq, Eq)]
pub enum Action {
    /// Look this path up, and come back with what was found.
    LookUp(String),
    /// Wait for the next window.
    NextWindow,
    /// Transcribe this audio.
    Transcribe { wav: Vec<u8>, filename: String, engine: String },
    /// Ask the model.
    Ask { system: String, user: String },
    /// Write this file below the data directory.
    Write { path: String, content: String },
    /// Write this file next to the source.
    Place { path: String, content: String },
    /// Remove what was written below the data directory: nothing is published.
    Discard,
    /// Tell that the job is done, and where its file is.
    Publish { output: Option<String> },
    /// Stop without a word: the job was canceled.
    Stop,
    /// Stop, and record why.
    Fail(String),
}

/// What a run asks for, as a mathematical value.
#[verifier::ext_equal]
pub enum ActionView {
    LookUp(Seq<char>),
    NextWindow,
    Transcribe { wav: Seq<u8>, filename: Seq<char>, engine: Seq<char> },
    Ask { system: Seq<char>, user: Seq<char> },
    Write { path: Seq<char>, content: Seq<char> },
    Place { path: Seq<char>, content: Seq<char> },
    Discard,
    Publish { output: Option<Seq<char>> },
    Stop,
    Fail(Seq<char>),
}

impl View for Action {
    type V = ActionView;

    open spec fn view(&self) -> ActionView {
        match *self {
            Action::LookUp(p) => ActionView::LookUp(p@),
            Action::NextWindow => ActionView::NextWindow,
            Action::Transcribe { wav, filename, engine } => ActionView::Transcribe {
                wav: wav@,
                filename: filename@,
                engine: engine@,
            },
            Action::Ask { system, user } => ActionView::Ask { system: system@, user: user@ },
            Action::Write { path, content } => ActionView::Write { path: path@, content: content@ },
            Action::Place { path, content } => ActionView::Place { path: path@, content: content@ },
            Action::Discard => ActionView::Discard,
            Action::Publish { output } => ActionView::Publish { output: text::opt(output) },
            Action::Stop => ActionView::Stop,
            Action::Fail(m) => ActionView::Fail(m@),
        }
    }
}

/// What one event makes of a run: the run, the store, and what is asked for next.
#[verifier::ext_equal]
pub struct Next {
    pub run: RunView,
    pub store: StoreView,
    pub action: ActionView,
}

/// The run is over.
pub open spec fn over(v: RunView, s: StoreView, action: ActionView) -> Next {
    Next { run: RunView { stage: Stage::Over, ..v }, store: s, action }
}

/// The run starts, if its job is still waiting to be worked on.
pub open spec fn begun(v: RunView, s: StoreView, now: i64) -> Next {
    let id = v.job.id;
    let moved = store::moved_if_active(s, id, Status::Transcribing, None, now);
    if !store::active(s, id) {
        over(v, moved, ActionView::Stop)
    } else {
        Next {
            run: RunView { stage: Stage::Looking, ..v },
            store: store::progressed(moved, id, 0, "Reading the video"@, None, now),
            action: ActionView::LookUp(v.job.source_path),
        }
    }
}

/// The source was looked up. It passes the guard again: a queued job may have waited while the
/// file was moved or deleted.
pub open spec fn looked_up(
    v: RunView,
    canonical: Option<PathView>,
    is_file: bool,
    roots: Seq<PathView>,
) -> (RunView, ActionView) {
    let end = RunView { stage: Stage::Over, ..v };
    match library::guard(v.job.source_path, canonical, is_file, roots) {
        Err(e) => (end, ActionView::Fail(e.text())),
        Ok(_) => match languages::lookup(v.job.target_language) {
            None => (
                end,
                ActionView::Fail("unknown target language `"@ + v.job.target_language + "`"@),
            ),
            Some(l) => (
                RunView { stage: Stage::Listening, language: Some(l), ..v },
                ActionView::NextWindow,
            ),
        },
    }
}

/// A window came. Cancellation is looked for between windows.
pub open spec fn window_came(
    v: RunView,
    s: StoreView,
    offset_ms: u64,
    duration_ms: u64,
    wav: Seq<u8>,
) -> (RunView, ActionView) {
    if canceled(s, v.job.id) {
        (RunView { stage: Stage::Over, ..v }, ActionView::Stop)
    } else {
        (
            RunView { stage: Stage::Hearing { offset_ms, duration_ms }, ..v },
            ActionView::Transcribe {
                wav,
                filename: "window-"@ + text::decimal(v.windows as nat) + ".wav"@,
                engine: v.job.engine,
            },
        )
    }
}

/// A window was transcribed: its cues are added, and the next one is waited for.
pub open spec fn heard(v: RunView, t: Transcription, offset_ms: u64, duration_ms: u64) -> RunView {
    RunView {
        stage: Stage::Listening,
        cues: v.cues + cues::window_cues(
            offset_ms as int,
            t.segments@,
            t.text@,
            duration_ms as int,
        ),
        windows: (v.windows + 1) as u64,
        ..v
    }
}

/// The cues are final, and the file is to be written.
pub open spec fn to_write(v: RunView, s: StoreView, now: i64) -> Next {
    let id = v.job.id;
    let s1 = store::progressed(s, id, WRITE_SHARE, "Writing the subtitle file"@, None, now);
    let content = cues::file_text(v.cues, v.job.format, v.job.layout);
    if canceled(s1, id) {
        over(RunView { session: None, ..v }, s1, ActionView::Stop)
    } else {
        Next {
            run: RunView { stage: Stage::Writing, session: None, content, ..v },
            store: s1,
            action: ActionView::Write {
                path: data_path(id, v.job.format.suffix()),
                content,
            },
        }
    }
}

/// A translation that has asked for nothing yet.
pub open spec fn fresh_session(cues: Seq<CueView>) -> SessionView {
    SessionView {
        cues,
        base: 0,
        phase: if cues.len() > 0 {
            Phase::Batch
        } else {
            Phase::Finished
        },
        got: Map::empty(),
        translated: 0,
    }
}

/// What the model is asked next.
pub open spec fn ask(v: RunView, w: SessionView) -> ActionView {
    ActionView::Ask {
        system: match v.language {
            Some(l) => translate::PROMPT_HEAD@ + l.name@ + " ("@ + l.native@
                + translate::PROMPT_TAIL@,
            None => seq![],
        },
        user: match translate::asked(w) {
            Some(u) => u,
            None => seq![],
        },
    }
}

/// The last window was transcribed. The cues are put in order and stored, and translated
/// unless they are in the target language already.
pub open spec fn all_heard(v: RunView, s: StoreView, now: i64) -> Next {
    let id = v.job.id;
    let tidy = cues::normalized(v.cues);
    let w = RunView { cues: tidy, ..v };
    if canceled(s, id) {
        over(v, s, ActionView::Stop)
    } else if tidy.len() == 0 {
        over(w, s, ActionView::Fail("no speech was found in this file"@))
    } else {
        let s1 = store::cues_stored(s, id, tidy, now);
        if v.language is Some && already_in(tidy, v.language->0) {
            to_write(w, s1, now)
        } else {
            let s2 = store::moved_if_active(s1, id, Status::Translating, None, now);
            if !store::active(s1, id) {
                over(w, s2, ActionView::Stop)
            } else {
                let session = fresh_session(tidy);
                Next {
                    run: RunView { stage: Stage::Translating, session: Some(session), ..w },
                    store: s2,
                    action: ask(w, session),
                }
            }
        }
    }
}

/// How far a job is when `done` of `total` cues are dealt with.
pub open spec fn translate_share(done: nat, total: nat) -> nat {
    TRANSCRIBE_SHARE as nat + if total == 0 {
        (WRITE_SHARE - TRANSCRIBE_SHARE) as nat
    } else {
        done * (WRITE_SHARE - TRANSCRIBE_SHARE) as nat / total
    }
}

/// The step that is shown while cues are translated.
pub open spec fn translate_stage(done: nat, total: nat) -> Seq<char> {
    "Translating line "@ + text::decimal(done) + " of "@ + text::decimal(total)
}

/// The model replied, or failed to. Progress is recorded after each batch, and cancellation is
/// looked for before anything else is asked. When all cues are dealt with the file is written,
/// whatever of them was translated: a cue without a translation keeps its source text.
pub open spec fn model_replied(
    v: RunView,
    s: StoreView,
    session: SessionView,
    reply: Option<Seq<char>>,
    now: i64,
) -> Next {
    let id = v.job.id;
    let w = translate::answered(session, reply);
    let s1 = if w.base > session.base {
        store::progressed(
            s,
            id,
            translate_share(w.base as nat, w.cues.len()) as u64,
            translate_stage(w.base as nat, w.cues.len()),
            None,
            now,
        )
    } else {
        s
    };
    if canceled(s1, id) {
        over(RunView { session: None, ..v }, s1, ActionView::Stop)
    } else if w.phase == Phase::Finished {
        let s2 = store::cues_stored(s1, id, w.cues, now);
        to_write(RunView { cues: w.cues, session: None, ..v }, s2, now)
    } else {
        Next {
            run: RunView { session: Some(w), ..v },
            store: s1,
            action: ask(v, w),
        }
    }
}

/// Where the file goes next to the source.
pub open spec fn beside(v: RunView) -> Seq<char> {
    v.source.directory + library::sidecar_name(
        v.source.stem,
        v.job.target_language,
        v.job.format.suffix(),
    )
}

/// The file was written next to the source, or not: the job tells where its file is.
pub open spec fn published(v: RunView, s: StoreView, placed: bool, now: i64) -> Next {
    let output = if placed {
        Some(beside(v))
    } else {
        None
    };
    over(
        v,
        store::output_stored(s, v.job.id, output, now),
        ActionView::Publish { output },
    )
}

/// The file was written below the data directory. Completion is the commit point: a job that
/// was canceled or deleted in the meantime publishes nothing.
pub open spec fn file_written(v: RunView, s: StoreView, now: i64) -> Next {
    let s1 = store::completed(s, v.job.id, now);
    let settings = match s.settings {
        Some(t) => t,
        None => store::default_settings(),
    };
    if !store::active(s, v.job.id) {
        over(v, s1, ActionView::Discard)
    } else if settings.write_beside_source {
        Next {
            run: RunView { stage: Stage::Placing, ..v },
            store: s1,
            action: ActionView::Place { path: beside(v), content: v.content },
        }
    } else {
        published(v, s1, false, now)
    }
}

impl Run {
    /// What a run has at each stage: a language once the source was found, room for every cue
    /// while they are collected, and a translation that is not finished while it is translated.
    pub open spec fn wf(&self) -> bool {
        match self.stage {
            Stage::Listening | Stage::Hearing { .. } => self@.language is Some && cues::has_room(
                self@.cues,
            ),
            Stage::Translating => {
                &&& self@.language is Some
                &&& self@.session is Some
                &&& translate::coherent(self@.session->0)
                &&& self@.session->0.phase != Phase::Finished
            },
            Stage::Ready | Stage::Looking => self@.cues.len() == 0,
            _ => true,
        }
    }

    /// A run of `job`, whose source is at `source`.
    pub fn new(job: Job, source: MediaPath) -> (r: Run)
        ensures
            r.wf(),
            r@ == (RunView {
                job: job@,
                source: source@,
                stage: Stage::Ready,
                cues: seq![],
                windows: 0,
                language: None,
                session: None,
                content: seq![],
            }),
    {
        let r = Run {
            job,
            source,
            stage: Stage::Ready,
            cues: Vec::new(),
            windows: 0,
            language: None,
            session: None,
            content: String::new(),
        };
        assert(r@.cues =~= seq![]);
        assert(r@.content =~= seq![]);
        r
    }

    /// Starts the run, if its job is still waiting to be worked on.
    pub fn begin(&mut self, jobs: &mut SubtitleStore, now: i64) -> (r: Action)
        requires
            old(self).wf(),
            old(self).stage == Stage::Ready,
            old(jobs).wf(),
        ensures
            final(self).wf(),
            final(jobs).wf(),
            (Next { run: final(self)@, store: final(jobs)@, action: r@ }) == begun(
                old(self)@,
                old(jobs)@,
                now,
            ),
    {
        if !jobs.set_status_if_active_at(&self.job.id, Status::Transcribing, None, now) {
            self.stage = Stage::Over;
            return Action::Stop;
        }
        jobs.set_progress_at(&self.job.id, 0, "Reading the video", None, now);
        self.stage = Stage::Looking;
        Action::LookUp(self.job.source_path.clone())
    }

    /// Takes in what looking the source up found.
    pub fn found(&mut self, probe: SourceProbe) -> (r: Action)
        requires
            old(self).wf(),
            old(self).stage == Stage::Looking,
        ensures
            final(self).wf(),
            (final(self)@, r@) == looked_up(
                old(self)@,
                library::opt_path(probe.canonical),
                probe.is_file,
                library::path_views(probe.roots@),
            ),
    {
        match library::validate_source(&self.job.source_path, probe) {
            Err(e) => {
                self.stage = Stage::Over;
                Action::Fail(e.message().to_string())
            },
            Ok(_) => match languages::find(&self.job.target_language) {
                None => {
                    self.stage = Stage::Over;
                    Action::Fail(
                        text::concat3("unknown target language `", &self.job.target_language, "`"),
                    )
                },
                Some(l) => {
                    self.language = Some(l);
                    self.stage = Stage::Listening;
                    Action::NextWindow
                },
            },
        }
    }

    /// Takes in a window.
    pub fn window(
        &mut self,
        jobs: &SubtitleStore,
        offset_ms: u64,
        duration_ms: u64,
        wav: Vec<u8>,
    ) -> (r: Action)
        requires
            old(self).wf(),
            old(self).stage == Stage::Listening,
            jobs.wf(),
        ensures
            final(self).wf(),
            (final(self)@, r@) == window_came(
                old(self)@,
                jobs@,
                offset_ms,
                duration_ms,
                wav@,
            ),
    {
        if is_canceled(jobs, &self.job.id) {
            self.stage = Stage::Over;
            return Action::Stop;
        }
        self.stage = Stage::Hearing { offset_ms, duration_ms };
        let mut name = text::chars_of("window-");
        text::append(&mut name, text::decimal_of(self.windows).as_slice());
        text::append_str(&mut name, ".wav");
        Action::Transcribe {
            wav,
            filename: text::string_of(name.as_slice()),
            engine: self.job.engine.clone(),
        }
    }

    /// Gives up, because something the run cannot do without failed.
    pub fn fail(&mut self, message: String) -> (r: Action)
        requires
            old(self).wf(),
        ensures
            final(self).wf(),
            final(self)@ == (RunView { stage: Stage::Over, ..old(self)@ }),
            r@ == ActionView::Fail(message@),
    {
        self.stage = Stage::Over;
        Action::Fail(message)
    }

    /// Records that the run failed, and why, unless its job was canceled, deleted or finished in
    /// the meantime. Says whether it was recorded.
    pub fn failed(&mut self, jobs: &mut SubtitleStore, message: &str, now: i64) -> (r: bool)
        requires
            old(self).wf(),
            old(jobs).wf(),
        ensures
            final(self).wf(),
            final(jobs).wf(),
            final(self)@ == (RunView { stage: Stage::Over, ..old(self)@ }),
            r == store::active(old(jobs)@, old(self)@.job.id),
            final(jobs)@ == store::moved_if_active(
                old(jobs)@,
                old(self)@.job.id,
                Status::Failed,
                Some(message@),
                now,
            ),
    {
        self.stage = Stage::Over;
        jobs.set_status_if_active_at(&self.job.id, Status::Failed, Some(message), now)
    }

    /// Takes in what the engine made of the window.
    pub fn transcribed(&mut self, t: Result<Transcription, String>) -> (r: Action)
        requires
            old(self).wf(),
            old(self).stage is Hearing,
            old(self).windows < u64::MAX,
            t matches Ok(t) ==> ({
                let offset = old(self).stage->offset_ms as int;
                let duration = old(self).stage->duration_ms as int;
                &&& cues::fits(offset, t.segments@, t.text@, duration)
                &&& cues::has_room(cues::window_cues(offset, t.segments@, t.text@, duration))
            }),
        ensures
            final(self).wf(),
            match t {
                Ok(t) => r@ == ActionView::NextWindow && final(self)@ == heard(
                    old(self)@,
                    t,
                    old(self).stage->offset_ms,
                    old(self).stage->duration_ms,
                ),
                Err(e) => r@ == ActionView::Fail("transcription failed: "@ + e@) && final(self)@
                    == (RunView { stage: Stage::Over, ..old(self)@ }),
            },
    {
        let t = match t {
            Ok(t) => t,
            Err(e) => {
                self.stage = Stage::Over;
                return Action::Fail(text::concat("transcription failed: ", &e));
            },
        };
        let (offset_ms, duration_ms): (u64, u64) = match self.stage {
            Stage::Hearing { offset_ms, duration_ms } => (offset_ms, duration_ms),
            _ => (0, 0),
        };
        let ghost before = self@.cues;
        let ghost more = cues::window_cues(
            offset_ms as int,
            t.segments@,
            t.text@,
            duration_ms as int,
        );
        let mut list = cues::cues_from_segments(
            offset_ms,
            t.segments.as_slice(),
            &t.text,
            duration_ms,
        );
        let ghost added = list@;
        self.cues.append(&mut list);
        assert(self@.cues =~= before + cues::views(added));
        assert(cues::has_room(self@.cues)) by {
            assert forall|i: int| 0 <= i < self@.cues.len() implies (
            #[trigger] self@.cues[i]).start_ms + cues::MIN_CUE_MS <= u64::MAX by {
                if i < before.len() {
                    assert(self@.cues[i] == before[i]);
                } else {
                    assert(self@.cues[i] == more[i - before.len()]);
                }
            }
        }
        self.windows = self.windows + 1;
        self.stage = Stage::Listening;
        Action::NextWindow
    }

    fn write_out(&mut self, jobs: &mut SubtitleStore, now: i64) -> (r: Action)
        requires
            old(jobs).wf(),
        ensures
            final(self).wf(),
            final(jobs).wf(),
            (Next { run: final(self)@, store: final(jobs)@, action: r@ }) == to_write(
                old(self)@,
                old(jobs)@,
                now,
            ),
    {
        self.session = None;
        jobs.set_progress_at(&self.job.id, WRITE_SHARE, "Writing the subtitle file", None, now);
        if is_canceled(jobs, &self.job.id) {
            self.stage = Stage::Over;
            return Action::Stop;
        }
        self.content = cues::render(self.cues.as_slice(), self.job.format, self.job.layout);
        self.stage = Stage::Writing;
        Action::Write {
            path: data_output_path(&self.job.id, self.job.format.extension()),
            content: self.content.clone(),
        }
    }

    fn ask_next(&self, session: &Session) -> (r: Action)
        requires
            translate::coherent(session@),
            session@.phase != Phase::Finished,
        ensures
            r@ == ask(self@, session@),
    {
        let system = match &self.language {
            Some(l) => translate::system_prompt(l),
            None => String::new(),
        };
        let user = match session.request() {
            Some(u) => u,
            None => String::new(),
        };
        assert(self.language is None ==> system@ =~= seq![]);
        Action::Ask { system, user }
    }

    /// Goes on when the last window was transcribed.
    pub fn windows_done(&mut self, jobs: &mut SubtitleStore, now: i64) -> (r: Action)
        requires
            old(self).wf(),
            old(self).stage == Stage::Listening,
            old(jobs).wf(),
        ensures
            final(self).wf(),
            final(jobs).wf(),
            (Next { run: final(self)@, store: final(jobs)@, action: r@ }) == all_heard(
                old(self)@,
                old(jobs)@,
                now,
            ),
    {
        if is_canceled(jobs, &self.job.id) {
            self.stage = Stage::Over;
            return Action::Stop;
        }
        let mut list: Vec<Cue> = Vec::new();
        std::mem::swap(&mut list, &mut self.cues);
        proof {
            assert forall|i: int|
                0 <= i < list@.len() && text::trim(list@[i].text@).len() > 0 implies (
            #[trigger] list@[i]).start_ms + cues::MIN_CUE_MS <= u64::MAX by {
                assert(cues::views(list@)[i].start_ms == list@[i].start_ms);
            }
        }
        self.cues = cues::normalize(list);
        if self.cues.len() == 0 {
            self.stage = Stage::Over;
            return Action::Fail("no speech was found in this file".to_string());
        }
        jobs.set_cues_at(&self.job.id, self.cues.as_slice(), now);
        let done = match &self.language {
            Some(l) => transcript_is_target(self.cues.as_slice(), l),
            None => false,
        };
        if done {
            return self.write_out(jobs, now);
        }
        if !jobs.set_status_if_active_at(&self.job.id, Status::Translating, None, now) {
            self.stage = Stage::Over;
            return Action::Stop;
        }
        let session = Session::start(store::copy_cues(self.cues.as_slice()));
        let action = self.ask_next(&session);
        self.session = Some(session);
        self.stage = Stage::Translating;
        action
    }

    /// Takes in the model's reply, or that there was none.
    pub fn replied(&mut self, jobs: &mut SubtitleStore, reply: Option<&str>, now: i64) -> (r: Action)
        requires
            old(self).wf(),
            old(self).stage == Stage::Translating,
            old(jobs).wf(),
        ensures
            final(self).wf(),
            final(jobs).wf(),
            (Next { run: final(self)@, store: final(jobs)@, action: r@ }) == model_replied(
                old(self)@,
                old(jobs)@,
                old(self)@.session->0,
                match reply {
                    Some(s) => Some(s@),
                    None => None,
                },
                now,
            ),
    {
        let ghost v = self@;
        let taken = self.session.take();
        let mut session = match taken {
            Some(session) => session,
            None => {
                assert(false);
                Session::start(Vec::new())
            },
        };
        let progress = session.reply(reply);
        if let Some((done, total)) = progress {
            assert(session@.cues.len() == session.cues.len());
            let wide: u128 = (done as u128) * ((WRITE_SHARE - TRANSCRIBE_SHARE) as u128) / (
            total as u128);
            assert(wide <= WRITE_SHARE - TRANSCRIBE_SHARE) by (nonlinear_arith)
                requires
                    wide == done as int * 180_000int / total as int,
                    WRITE_SHARE - TRANSCRIBE_SHARE == 180_000,
                    0 < done <= total,
            ;
            let share: u64 = TRANSCRIBE_SHARE + wide as u64;
            let mut stage = text::chars_of("Translating line ");
            text::append(&mut stage, text::decimal_of(done as u64).as_slice());
            text::append_str(&mut stage, " of ");
            text::append(&mut stage, text::decimal_of(total as u64).as_slice());
            let stage = text::string_of(stage.as_slice());
            jobs.set_progress_at(&self.job.id, share, &stage, None, now);
        }
        if is_canceled(jobs, &self.job.id) {
            self.stage = Stage::Over;
            return Action::Stop;
        }
        match session.phase {
            Phase::Finished => {
                self.cues = session.cues;
                jobs.set_cues_at(&self.job.id, self.cues.as_slice(), now);
                self.write_out(jobs, now)
            },
            _ => {
                let action = self.ask_next(&session);
                self.session = Some(session);
                action
            },
        }
    }

    fn publish(&mut self, jobs: &mut SubtitleStore, placed: bool, now: i64) -> (r: Action)
        requires
            old(jobs).wf(),
        ensures
            final(self).wf(),
            final(jobs).wf(),
            (Next { run: final(self)@, store: final(jobs)@, action: r@ }) == published(
                old(self)@,
                old(jobs)@,
                placed,
                now,
            ),
    {
        self.stage = Stage::Over;
        if placed {
            let path = library::sidecar_output_path(
                &self.source,
                &self.job.target_language,
                self.job.format.extension(),
            );
            jobs.set_output_path_at(&self.job.id, Some(&path), now);
            Action::Publish { output: Some(path) }
        } else {
            jobs.set_output_path_at(&self.job.id, None, now);
            Action::Publish { output: None }
        }
    }

    /// Goes on when the file was written below the data directory.
    pub fn written(&mut self, jobs: &mut SubtitleStore, now: i64) -> (r: Action)
        requires
            old(self).wf(),
            old(self).stage == Stage::Writing,
            old(jobs).wf(),
        ensures
            final(self).wf(),
            final(jobs).wf(),
            (Next { run: final(self)@, store: final(jobs)@, action: r@ }) == file_written(
                old(self)@,
                old(jobs)@,
                now,
            ),
    {
        if !jobs.complete_if_active_at(&self.job.id, now) {
            self.stage = Stage::Over;
            return Action::Discard;
        }
        if jobs.settings().write_beside_source {
            self.stage = Stage::Placing;
            return Action::Place {
                path: library::sidecar_output_path(
                    &self.source,
                    &self.job.target_language,
                    self.job.format.extension(),
                ),
                content: self.content.clone(),
            };
        }
        self.publish(jobs, false, now)
    }

    /// Goes on when the file was written next to the source, or could not be.
    pub fn placed(&mut self, jobs: &mut SubtitleStore, success: bool, now: i64) -> (r: Action)
        requires
            old(self).wf(),
            old(self).stage == Stage::Placing,
            old(jobs).wf(),
        ensures
            final(self).wf(),
            final(jobs).wf(),
            (Next { run: final(self)@, store: final(jobs)@, action: r@ }) == published(
                old(self)@,
                old(jobs)@,
                success,
                now,
            ),
    {
        self.publish(jobs, success, now)
    }
}

/// What is said when a job is done.
pub fn ready_text(source_name: &str, cue_count: u64, extension: &str) -> (r: String)
    ensures
        r@ == source_name@ + " — "@ + text::decimal(cue_count as nat) + " cues in "@ + extension@,
{
    let mut out = text::chars_of(source_name);
    text::append_str(&mut out, " — ");
    text::append(&mut out, text::decimal_of(cue_count).as_slice());
    text::append_str(&mut out, " cues in ");
    text::append_str(&mut out, extension);
    text::string_of(out.as_slice())
}

/// `t` is `s` but for the job `id`.
pub open spec fn touches_only(s: StoreView, t: StoreView, id: Seq<char>) -> bool {
    &&& t.settings == s.settings
    &&& t.records.len() == s.records.len()
    &&& forall|i: int|
        #![trigger t.records[i]]
        0 <= i < s.records.len() ==> {
            &&& t.records[i].job.id == s.records[i].job.id
            &&& s.records[i].job.id != id ==> t.records[i] == s.records[i]
        }
}

/// Whatever happens in a run, it changes no job but its own, and no settings.
pub proof fn a_run_touches_only_its_job(
    v: RunView,
    s: StoreView,
    session: SessionView,
    reply: Option<Seq<char>>,
    placed: bool,
    message: Seq<char>,
    now: i64,
)
    ensures
        touches_only(s, begun(v, s, now).store, v.job.id),
        touches_only(s, all_heard(v, s, now).store, v.job.id),
        touches_only(s, model_replied(v, s, session, reply, now).store, v.job.id),
        touches_only(s, file_written(v, s, now).store, v.job.id),
        touches_only(s, published(v, s, placed, now).store, v.job.id),
        touches_only(
            s,
            store::moved_if_active(s, v.job.id, Status::Failed, Some(message), now),
            v.job.id,
        ),
{
}

/// A run whose job was canceled, or deleted, asks for nothing more once it looks: no window is
/// transcribed, no model is asked, and no file is written.
pub proof fn cancellation_stops_a_run(
    v: RunView,
    s: StoreView,
    session: SessionView,
    reply: Option<Seq<char>>,
    offset_ms: u64,
    duration_ms: u64,
    wav: Seq<u8>,
    now: i64,
)
    requires
        canceled(s, v.job.id),
    ensures
        begun(v, s, now).action == ActionView::Stop,
        window_came(v, s, offset_ms, duration_ms, wav).1 == ActionView::Stop,
        all_heard(v, s, now).action == ActionView::Stop,
        model_replied(v, s, session, reply, now).action == ActionView::Stop,
        to_write(v, s, now).action == ActionView::Stop,
{
    let id = v.job.id;
    let w = translate::answered(session, reply);
    let p = store::progressed(s, id, WRITE_SHARE, "Writing the subtitle file"@, None, now);
    let q = store::progressed(
        s,
        id,
        translate_share(w.base as nat, w.cues.len()) as u64,
        translate_stage(w.base as nat, w.cues.len()),
        None,
        now,
    );
    if store::active(s, id) {
        let i = choose|i: int|
            0 <= i < s.records.len() && (#[trigger] s.records[i]).job.id == id
                && !s.records[i].job.status.over();
        assert(s.records[i].job.status == Status::Canceled);
    }
    assert forall|i: int|
        0 <= i < p.records.len() && (#[trigger] p.records[i]).job.id == id implies p.records[i].job.status
        == Status::Canceled by {
        assert(s.records[i].job.id == id);
    }
    assert forall|i: int|
        0 <= i < q.records.len() && (#[trigger] q.records[i]).job.id == id implies q.records[i].job.status
        == Status::Canceled by {
        assert(s.records[i].job.id == id);
    }
}

proof fn lemma_to_write(v: RunView, s: StoreView, now: i64)
    requires
        store::ids_unique(s.records),
        store::active(s, v.job.id),
        store::found(s.records, v.job.id)->0.cues == v.cues,
    ensures
        to_write(v, s, now).action matches ActionView::Write { content, .. } ==> (store::found(
            to_write(v, s, now).store.records,
            v.job.id,
        ) matches Some(r) && content == cues::file_text(r.cues, v.job.format, v.job.layout)),
{
    store::lemma_found_changed(
        s,
        v.job.id,
        |r: RecordView|
            store::with_progress(r, WRITE_SHARE, "Writing the subtitle file"@, None, now),
    );
}

/// The file that a run writes shows the cues that the store holds of its job, in the format and
/// the layout that the job asks for.
pub proof fn the_file_shows_the_stored_cues(
    v: RunView,
    s: StoreView,
    session: SessionView,
    reply: Option<Seq<char>>,
    now: i64,
)
    requires
        store::ids_unique(s.records),
        store::active(s, v.job.id),
    ensures
        all_heard(v, s, now).action matches ActionView::Write { content, .. } ==> (store::found(
            all_heard(v, s, now).store.records,
            v.job.id,
        ) matches Some(r) && content == cues::file_text(r.cues, v.job.format, v.job.layout)),
        model_replied(v, s, session, reply, now).action matches ActionView::Write { content, .. }
            ==> (store::found(model_replied(v, s, session, reply, now).store.records, v.job.id) matches Some(
            r,
        ) && content == cues::file_text(r.cues, v.job.format, v.job.layout)),
{
    let id = v.job.id;
    let tidy = cues::normalized(v.cues);
    store::lemma_found_changed(s, id, |r: RecordView| store::with_cues(r, tidy, now));
    lemma_to_write(RunView { cues: tidy, ..v }, store::cues_stored(s, id, tidy, now), now);
    let w = translate::answered(session, reply);
    let share = translate_share(w.base as nat, w.cues.len()) as u64;
    let stage = translate_stage(w.base as nat, w.cues.len());
    store::lemma_found_changed(
        s,
        id,
        |r: RecordView| store::with_progress(r, share, stage, None, now),
    );
    let s1 = if w.base > session.base {
        store::progressed(s, id, share, stage, None, now)
    } else {
        s
    };
    store::lemma_found_changed(s1, id, |r: RecordView| store::with_cues(r, w.cues, now));
    lemma_to_write(
        RunView { cues: w.cues, session: None, ..v },
        store::cues_stored(s1, id, w.cues, now),
        now,
    );
}

/// Lines that could not be translated never fail a job, be it all of them: when the last one is
/// dealt with, the file of a job that is still active is written.
pub proof fn untranslated_lines_do_not_fail_a_job(
    v: RunView,
    s: StoreView,
    session: SessionView,
    reply: Option<Seq<char>>,
    now: i64,
)
    requires
        store::ids_unique(s.records),
    ensures
        !(model_replied(v, s, session, reply, now).action is Fail),
        store::active(s, v.job.id) && translate::answered(session, reply).phase == Phase::Finished
            ==> model_replied(v, s, session, reply, now).action is Write,
{
    let id = v.job.id;
    let w = translate::answered(session, reply);
    let share = translate_share(w.base as nat, w.cues.len()) as u64;
    let stage = translate_stage(w.base as nat, w.cues.len());
    if store::active(s, id) {
        store::lemma_found_changed(
            s,
            id,
            |r: RecordView| store::with_progress(r, share, stage, None, now),
        );
        let s1 = if w.base > session.base {
            store::progressed(s, id, share, stage, None, now)
        } else {
            s
        };
        store::lemma_found_changed(s1, id, |r: RecordView| store::with_cues(r, w.cues, now));
        store::lemma_found_changed(
            store::cues_stored(s1, id, w.cues, now),
            id,
            |r: RecordView|
                store::with_progress(r, WRITE_SHARE, "Writing the subtitle file"@, None, now),
        );
    }
}

/// What fails does not undo: the job of a run that failed says so and why, and keeps the cues
/// that were stored. A job that was canceled, deleted or finished before stays as it was.
pub proof fn a_failed_run_keeps_its_transcript(
    v: RunView,
    s: StoreView,
    message: Seq<char>,
    now: i64,
)
    requires
        store::ids_unique(s.records),
    ensures
        ({
            let after = store::moved_if_active(s, v.job.id, Status::Failed, Some(message), now);
            &&& !store::active(s, v.job.id) ==> after == s
            &&& store::active(s, v.job.id) ==> {
                &&& store::found(after.records, v.job.id) matches Some(r)
                &&& r.job.status == Status::Failed
                &&& r.job.error == Some(message)
                &&& r.cues == store::found(s.records, v.job.id)->0.cues
            }
        }),
{
    let f = |r: RecordView| store::with_status(r, Status::Failed, Some(message), now);
    if store::active(s, v.job.id) {
        store::lemma_found_changed(s, v.job.id, f);
    } else {
        store::late_results_are_rejected(s, v.job.id, f);
    }
}

/// Nothing is published of a job that was canceled, deleted or finished before its completion
/// could be committed: the file that was written is removed again and the store stays as it
/// was. Where something is published, the job is completed.
pub proof fn publishing_follows_the_commit(v: RunView, s: StoreView, now: i64)
    ensures
        !store::active(s, v.job.id) ==> {
            &&& file_written(v, s, now).action == ActionView::Discard
            &&& file_written(v, s, now).store == s
        },
        store::active(s, v.job.id) ==> {
            &&& file_written(v, s, now).action is Place || file_written(v, s, now).action is Publish
            &&& forall|i: int|
                0 <= i < s.records.len() && (#[trigger] s.records[i]).job.id == v.job.id
                    && !s.records[i].job.status.over() ==> file_written(
                    v,
                    s,
                    now,
                ).store.records[i].job.status == Status::Completed
        },
{
    if !store::active(s, v.job.id) {
        store::late_results_are_rejected(
            s,
            v.job.id,
            |r: RecordView| store::with_completion(r, now),
        );
    }
}

/// The clock reads back: the seconds are two digits below sixty, and what stands in front of
/// them are the minutes; from an hour on the minutes are two digits below sixty as well, behind
/// the hours. Together they make up the whole seconds of the time.
#[verifier::spinoff_prover]
#[verifier::rlimit(60)]
pub proof fn the_clock_reads_back(ms: nat)
    ensures
        ({
            let t = clock_text(ms);
            let n = t.len() as int;
            let s = t.skip(n - 2);
            &&& n >= 4
            &&& t[n - 3] == ':'
            &&& text::all_digits(s) && text::value(s) < 60
            &&& ms < 3_600_000 ==> {
                let m = t.take(n - 3);
                &&& text::all_digits(m)
                &&& text::value(m) * 60 + text::value(s) == ms / 1000
                &&& m.len() > 1 ==> m[0] != '0'
            }
            &&& ms >= 3_600_000 ==> {
                let h = t.take(n - 6);
                let m = t.subrange(n - 5, n - 3);
                &&& n >= 7
                &&& t[n - 6] == ':'
                &&& text::all_digits(h) && text::all_digits(m) && text::value(m) < 60
                &&& text::value(h) * 3600 + text::value(m) * 60 + text::value(s) == ms / 1000
                &&& h[0] != '0'
            }
        }),
{
    let total = ms / 1000;
    lemma_hundred();
    let a = text::decimal(total / 3600);
    let b = text::padded(total % 3600 / 60, 2);
    let c = text::padded(total % 60, 2);
    let m = text::decimal(total % 3600 / 60);
    text::numbers_are_written_in_decimal(total / 3600, 2);
    text::numbers_are_written_in_decimal(total % 3600 / 60, 2);
    text::numbers_are_written_in_decimal(total % 60, 2);
    if ms >= 3_600_000 {
        lemma_clock_parts(a + seq![':'] + b, c);
        lemma_clock_parts(a, b);
        let front = a + seq![':'] + b;
        let t = clock_text(ms);
        let n = t.len() as int;
        assert(t.subrange(n - 5, n - 3) =~= front.skip(front.len() - 2));
        assert(t.take(n - 6) =~= front.take(front.len() - 3));
        assert(t[n - 6] == front[front.len() - 3]);
        if a[0] == '0' {
            assert(a.len() == 1);
            assert(a =~= seq!['0']);
            text::digits_count_by_place(seq![], seq![]);
        }
    } else {
        lemma_clock_parts(m, c);
    }
}

proof fn lemma_hundred()
    ensures
        text::pow10(2) == 100,
{
    reveal_with_fuel(text::pow10, 4);
}

/// Where the last two digits behind a colon stand, and what stands in front.
proof fn lemma_clock_parts(front: Seq<char>, back: Seq<char>)
    requires
        back.len() == 2,
    ensures
        ({
            let t = front + seq![':'] + back;
            let n = t.len() as int;
            &&& n == front.len() + 3
            &&& t.take(n - 3) == front
            &&& t[n - 3] == ':'
            &&& t.skip(n - 2) == back
        }),
{
    let t = front + seq![':'] + back;
    let n = t.len() as int;
    assert(t.take(n - 3) =~= front);
    assert(t.skip(n - 2) =~= back);
}

/// Progress is in proportion, rounded down: transcription owns the first 800,000 millionths and
/// translation the next 180,000. Nothing is claimed where the length of the media is not
/// known, and no more than its share where more was decoded than was declared.
pub proof fn progress_is_in_proportion(done: nat, total: nat, t: u64)
    requires
        done <= total,
    ensures
        transcribe_share(done, None) == 0,
        transcribe_share(done, Some(0)) == 0,
        0 < t <= done ==> transcribe_share(done, Some(t)) == 800_000,
        done < t ==> {
            let share = transcribe_share(done, Some(t));
            share * t <= done * 800_000 && done * 800_000 < (share + 1) * t
        },
        total == 0 ==> translate_share(done, total) == 980_000,
        total > 0 ==> {
            let share = translate_share(done, total) - 800_000;
            share * total <= done * 180_000 && done * 180_000 < (share + 1) * total
        },
{
    if done < t {
        let a = (done * 800_000) as int;
        let q = a / (t as int);
        let d = t as int;
        assert(q * d <= a && a < (q + 1) * d) by (nonlinear_arith)
            requires
                q == a / d,
                d > 0,
                a >= 0,
        ;
    }
    if total > 0 {
        let a = (done * 180_000) as int;
        let d = total as int;
        let q = a / d;
        assert(q * d <= a && a < (q + 1) * d) by (nonlinear_arith)
            requires
                q == a / d,
                d > 0,
                a >= 0,
        ;
    }
}

proof fn lemma_letters(s: Seq<char>)
    ensures
        letters(s) == s.filter(|c: char| alphabetic(c)).len(),
        ascii_letters(s) == s.filter(|c: char| alphabetic(c) && (c as u32) < 128).len(),
    decreases s.len(),
{
    reveal(Seq::filter);
    if s.len() > 0 {
        lemma_letters(s.drop_last());
    }
}

/// A transcript needs no translation exactly when the target is English and, of the letters in
/// its first twenty cues, of which there are some, no more than five of a hundred are beyond
/// ASCII.
pub proof fn english_is_left_alone(cues: Seq<CueView>, language: Language)
    ensures
        ({
            let n = if cues.len() < 20 {
                cues.len()
            } else {
                20
            };
            let sample = text::join(Seq::new(n, |i: int| cues[i].text), seq![' ']);
            let all = sample.filter(|c: char| alphabetic(c)).len();
            let plain = sample.filter(|c: char| alphabetic(c) && (c as u32) < 128).len();
            already_in(cues, language) <==> language.code@ == "en"@ && !text::blank(sample) && all
                > 0 && plain * 100 >= all * 95
        }),
{
    let n = if cues.len() < 20 {
        cues.len()
    } else {
        20
    };
    let parts = Seq::new(n, |i: int| cues[i].text);
    let first = if cues.len() > 20 {
        cues.take(20)
    } else {
        cues
    };
    assert(first.map_values(|c: CueView| c.text) =~= parts);
    let sample = sample_text(cues);
    lemma_letters(sample);
    text::lemma_trim(sample);
    let all = letters(sample) as int;
    let plain = ascii_letters(sample) as int;
    if all > 0 {
        let q = plain * 100 / all;
        assert(q >= 95 <==> plain * 100 >= all * 95) by (nonlinear_arith)
            requires
                all > 0,
                plain >= 0,
                q == plain * 100 / all,
        ;
    }
}

/// A run begins by looking its source up, with its job being transcribed at no progress; a job
/// that is finished is not begun, and stays as it was.
pub proof fn a_run_begins_with_a_look(v: RunView, s: StoreView, now: i64, i: int)
    requires
        store::ids_unique(s.records),
        0 <= i < s.records.len(),
        s.records[i].job.id == v.job.id,
    ensures
        match s.records[i].job.status {
            Status::Queued | Status::Transcribing | Status::Translating => {
                let next = begun(v, s, now);
                let job = next.store.records[i].job;
                &&& next.action == ActionView::LookUp(v.job.source_path)
                &&& next.run.stage == Stage::Looking
                &&& (RunView { stage: v.stage, ..next.run }) == v
                &&& job.status == Status::Transcribing
                &&& job.progress == 0
                &&& job.stage == "Reading the video"@
                &&& job.error is None
                &&& job.duration_ms == s.records[i].job.duration_ms
                &&& next.store.records[i].cues == s.records[i].cues
            },
            _ => {
                let next = begun(v, s, now);
                &&& next.action == ActionView::Stop
                &&& next.run.stage == Stage::Over
                &&& next.store.records[i] == s.records[i]
            },
        },
{
    lemma_alone(s, i);
}

/// With unique ids, what holds of the job at its place holds of it under its id.
proof fn lemma_alone(s: StoreView, i: int)
    requires
        store::ids_unique(s.records),
        0 <= i < s.records.len(),
    ensures
        store::active(s, s.records[i].job.id) <==> !s.records[i].job.status.over(),
        canceled(s, s.records[i].job.id) <==> s.records[i].job.status == Status::Canceled,
        forall|j: int|
            0 <= j < s.records.len() && (#[trigger] s.records[j]).job.id == s.records[i].job.id
                ==> j == i,
{
    assert forall|j: int|
        0 <= j < s.records.len() && (#[trigger] s.records[j]).job.id
            == s.records[i].job.id implies j == i by {
        if j < i {
            assert(s.records[j].job.id != s.records[i].job.id);
        } else if i < j {
            assert(s.records[i].job.id != s.records[j].job.id);
        }
    }
}

/// A run listens once its source passed the guard and its target is a language of the list; a
/// source that did not pass fails the run with what the guard says, an unlisted target with
/// the name of it.
pub proof fn a_run_listens_once_its_source_passed(
    v: RunView,
    canonical: Option<PathView>,
    is_file: bool,
    roots: Seq<PathView>,
)
    ensures
        ({
            let verdict = library::guard(v.job.source_path, canonical, is_file, roots);
            let language = languages::lookup(v.job.target_language);
            let (run, action) = looked_up(v, canonical, is_file, roots);
            &&& action == ActionView::NextWindow <==> verdict is Ok && language is Some
            &&& action == ActionView::NextWindow <==> run.stage == Stage::Listening
            &&& action == ActionView::NextWindow ==> run.language == language
            &&& action != ActionView::NextWindow ==> run.stage == Stage::Over
            &&& verdict is Err ==> action == ActionView::Fail(verdict->Err_0.text())
            &&& verdict is Ok && language is None ==> action == ActionView::Fail(
                "unknown target language `"@ + v.job.target_language + "`"@,
            )
            &&& run.job == v.job && run.source == v.source && run.cues == v.cues && run.windows
                == v.windows
        }),
{
}

/// Each window of a job that was not canceled is passed to the engine that the job asks for,
/// under a name with its number, and its place is kept until the answer comes.
pub proof fn a_window_is_passed_on(
    v: RunView,
    s: StoreView,
    offset_ms: u64,
    duration_ms: u64,
    wav: Seq<u8>,
    i: int,
)
    requires
        store::ids_unique(s.records),
        0 <= i < s.records.len(),
        s.records[i].job.id == v.job.id,
        s.records[i].job.status != Status::Canceled,
    ensures
        ({
            let (run, action) = window_came(v, s, offset_ms, duration_ms, wav);
            &&& action is Transcribe
            &&& action->wav == wav
            &&& action->filename == "window-"@ + text::decimal(v.windows as nat) + ".wav"@
            &&& action->engine == v.job.engine
            &&& run.stage == Stage::Hearing { offset_ms, duration_ms }
            &&& (RunView { stage: v.stage, ..run }) == v
        }),
{
    lemma_alone(s, i);
}

/// What is heard adds up: after two windows the run has the cues it had, then those of the
/// first, then those of the second, and counts two windows more.
pub proof fn windows_add_up(
    v: RunView,
    first: Transcription,
    second: Transcription,
    a: u64,
    a_ms: u64,
    b: u64,
    b_ms: u64,
)
    requires
        v.windows + 2 <= u64::MAX,
    ensures
        ({
            let run = heard(heard(v, first, a, a_ms), second, b, b_ms);
            let one = cues::window_cues(a as int, first.segments@, first.text@, a_ms as int);
            let two = cues::window_cues(b as int, second.segments@, second.text@, b_ms as int);
            &&& run.cues.len() == v.cues.len() + one.len() + two.len()
            &&& forall|k: int| 0 <= k < v.cues.len() ==> #[trigger] run.cues[k] == v.cues[k]
            &&& run.cues.subrange(v.cues.len() as int, (v.cues.len() + one.len()) as int) == one
            &&& run.cues.skip((v.cues.len() + one.len()) as int) == two
            &&& run.windows == v.windows + 2
            &&& run.stage == Stage::Listening
            &&& run.job == v.job && run.source == v.source && run.language == v.language
        }),
{
}

/// The file of a job is written below the data directory under its id and the extension of its
/// format, and shows its cues; only the writing is left of the progress.
pub proof fn a_file_is_named_after_its_job(v: RunView, s: StoreView, now: i64, i: int)
    requires
        store::ids_unique(s.records),
        0 <= i < s.records.len(),
        s.records[i].job.id == v.job.id,
        s.records[i].job.status != Status::Canceled,
    ensures
        ({
            let next = to_write(v, s, now);
            &&& next.action is Write
            &&& next.action->Write_path == "subtitles/"@ + v.job.id + match v.job.format {
                Format::Srt => ".srt"@,
                Format::Vtt => ".vtt"@,
            }
            &&& next.action->Write_content == cues::file_text(v.cues, v.job.format, v.job.layout)
            &&& next.run.content == next.action->Write_content
            &&& next.run.stage == Stage::Writing
            &&& next.run.cues == v.cues && next.run.job == v.job && next.run.source == v.source
            &&& next.store.records[i].cues == s.records[i].cues
            &&& !s.records[i].job.status.over() ==> next.store.records[i].job.progress == 980_000
            &&& !s.records[i].job.status.over() ==> next.store.records[i].job.stage
                == "Writing the subtitle file"@
            &&& next.store.records[i].job.status == s.records[i].job.status
        }),
{
    reveal_strlit(".srt");
    reveal_strlit(".vtt");
    reveal_strlit("srt");
    reveal_strlit("vtt");
    let s1 = store::progressed(s, v.job.id, WRITE_SHARE, "Writing the subtitle file"@, None, now);
    assert(s1.records[i].job.status == s.records[i].job.status);
    assert forall|a: int, b: int| 0 <= a < b < s1.records.len() implies (#[trigger] s1.records[a]).job.id != (
    #[trigger] s1.records[b]).job.id by {
        assert(s.records[a].job.id != s.records[b].job.id);
    }
    lemma_alone(s1, i);
    let path = data_path(v.job.id, v.job.format.suffix());
    match v.job.format {
        Format::Srt => {
            assert(path =~= "subtitles/"@ + v.job.id + ".srt"@);
        },
        Format::Vtt => {
            assert(path =~= "subtitles/"@ + v.job.id + ".vtt"@);
        },
    }
}

/// When the last window of an active job was heard, the tidied cues are stored. Where there are
/// none the run fails and nothing is stored. Cues that need no translation are written; for
/// all others the model is asked, in the name of the target language, for the first batch.
pub proof fn what_was_heard_is_stored(v: RunView, s: StoreView, now: i64, i: int, l: Language)
    requires
        store::ids_unique(s.records),
        0 <= i < s.records.len(),
        s.records[i].job.id == v.job.id,
        !s.records[i].job.status.over(),
        v.language == Some(l),
    ensures
        ({
            let tidy = cues::normalized(v.cues);
            let next = all_heard(v, s, now);
            let after = next.store.records[i];
            &&& tidy.len() == 0 ==> {
                &&& next.action == ActionView::Fail("no speech was found in this file"@)
                &&& next.store == s
                &&& next.run.stage == Stage::Over
            }
            &&& tidy.len() > 0 ==> {
                &&& after.cues == tidy
                &&& next.run.cues == tidy
                &&& already_in(tidy, l) <==> next.action is Write
                &&& already_in(tidy, l) ==> after.job.status == s.records[i].job.status
                &&& !already_in(tidy, l) ==> {
                    &&& next.action is Ask
                    &&& next.action->system == translate::PROMPT_HEAD@ + l.name@ + " ("@ + l.native@
                        + translate::PROMPT_TAIL@
                    &&& after.job.status == Status::Translating
                    &&& after.job.error is None
                    &&& next.run.stage == Stage::Translating
                    &&& next.run.session is Some
                    &&& next.run.session->0.cues == tidy
                    &&& next.run.session->0.base == 0
                    &&& next.run.session->0.phase == Phase::Batch
                    &&& next.run.session->0.got.dom().len() == 0
                    &&& next.run.session->0.translated == 0
                    &&& translate::asked(next.run.session->0) == Some(next.action->user)
                }
            }
        }),
{
    lemma_alone(s, i);
    let id = v.job.id;
    let tidy = cues::normalized(v.cues);
    let s1 = store::cues_stored(s, id, tidy, now);
    assert(s1.records[i] == store::with_cues(s.records[i], tidy, now));
    assert forall|a: int, b: int| 0 <= a < b < s1.records.len() implies (#[trigger] s1.records[a]).job.id != (
    #[trigger] s1.records[b]).job.id by {
        assert(s.records[a].job.id != s.records[b].job.id);
    }
    lemma_alone(s1, i);
    a_file_is_named_after_its_job(RunView { cues: tidy, ..v }, s1, now, i);
}

/// A reply moves the run of an active job on. When a batch is dealt with, its progress is told
/// by the line it has reached. While lines are open the model is asked again; when none is, the
/// cues are stored as they are then, and written.
pub proof fn a_reply_moves_a_run_on(
    v: RunView,
    s: StoreView,
    session: SessionView,
    reply: Option<Seq<char>>,
    now: i64,
    i: int,
    l: Language,
)
    requires
        store::ids_unique(s.records),
        0 <= i < s.records.len(),
        s.records[i].job.id == v.job.id,
        !s.records[i].job.status.over(),
        v.language == Some(l),
        translate::coherent(session),
        session.phase != Phase::Finished,
    ensures
        ({
            let w = translate::answered(session, reply);
            let next = model_replied(v, s, session, reply, now);
            let after = next.store.records[i];
            &&& w.phase != Phase::Finished ==> {
                &&& next.action is Ask
                &&& next.action->system == translate::PROMPT_HEAD@ + l.name@ + " ("@ + l.native@
                    + translate::PROMPT_TAIL@
                &&& translate::asked(w) == Some(next.action->user)
                &&& next.run.session == Some(w)
                &&& (RunView { session: v.session, ..next.run }) == v
                &&& after.cues == s.records[i].cues
                &&& w.base == session.base ==> after == s.records[i]
                &&& w.base > session.base ==> after.job.stage == "Translating line "@
                    + text::decimal(w.base as nat) + " of "@ + text::decimal(w.cues.len())
                &&& w.base > session.base ==> after.job.progress == translate_share(
                    w.base as nat,
                    w.cues.len(),
                )
            }
            &&& w.phase == Phase::Finished ==> {
                &&& next.action is Write
                &&& next.action->Write_content == cues::file_text(
                    w.cues,
                    v.job.format,
                    v.job.layout,
                )
                &&& next.run.cues == w.cues
                &&& next.run.session is None
                &&& after.cues == w.cues
                &&& after.job.progress == 980_000
            }
            &&& after.job.status == s.records[i].job.status
        }),
{
    let id = v.job.id;
    let w = translate::answered(session, reply);
    translate::every_reply_moves_on(session, reply);
    let share = translate_share(w.base as nat, w.cues.len());
    let stage = translate_stage(w.base as nat, w.cues.len());
    progress_is_in_proportion(w.base as nat, w.cues.len(), 0);
    assert(share <= 980_000) by {
        let part = share - 800_000;
        let total = w.cues.len() as int;
        if total > 0 && part > 180_000 {
            assert(part * total > 180_000 * total) by (nonlinear_arith)
                requires
                    part > 180_000,
                    total > 0,
            ;
        }
    }
    let s1 = if w.base > session.base {
        store::progressed(s, id, share as u64, stage, None, now)
    } else {
        s
    };
    assert forall|a: int, b: int| 0 <= a < b < s1.records.len() implies (#[trigger] s1.records[a]).job.id != (
    #[trigger] s1.records[b]).job.id by {
        assert(s.records[a].job.id != s.records[b].job.id);
    }
    assert(s1.records[i].job.status == s.records[i].job.status);
    lemma_alone(s1, i);
    let s2 = store::cues_stored(s1, id, w.cues, now);
    assert(s2.records[i] == store::with_cues(s1.records[i], w.cues, now));
    assert forall|a: int, b: int| 0 <= a < b < s2.records.len() implies (#[trigger] s2.records[a]).job.id != (
    #[trigger] s2.records[b]).job.id by {
        assert(s1.records[a].job.id != s1.records[b].job.id);
    }
    a_file_is_named_after_its_job(
        RunView { cues: w.cues, session: None, ..v },
        s2,
        now,
        i,
    );
}

/// When the file of an active job was written the job is completed. It is placed next to its
/// source unless the settings say otherwise, and the job tells where it lies only when that
/// succeeded.
pub proof fn a_file_is_placed_beside_its_source(
    v: RunView,
    s: StoreView,
    placed: bool,
    now: i64,
    i: int,
    name: Seq<char>,
)
    requires
        store::ids_unique(s.records),
        0 <= i < s.records.len(),
        s.records[i].job.id == v.job.id,
        !s.records[i].job.status.over(),
        name == v.source.directory + library::sidecar_name(
            v.source.stem,
            v.job.target_language,
            match v.job.format {
                Format::Srt => "srt"@,
                Format::Vtt => "vtt"@,
            },
        ),
    ensures
        ({
            let next = file_written(v, s, now);
            let wanted = s.settings is Some ==> s.settings->0.write_beside_source;
            let job = next.store.records[i].job;
            &&& job.status == Status::Completed
            &&& job.progress == 1_000_000
            &&& wanted ==> next.action == (ActionView::Place { path: name, content: v.content })
            &&& wanted ==> next.run.stage == Stage::Placing && job.output_path
                == s.records[i].job.output_path
            &&& !wanted ==> next.action == (ActionView::Publish { output: None })
            &&& !wanted ==> next.run.stage == Stage::Over && job.output_path is None
            &&& next.store.records[i].cues == s.records[i].cues
        }),
        ({
            let next = published(v, s, placed, now);
            let job = next.store.records[i].job;
            &&& placed ==> next.action == (ActionView::Publish { output: Some(name) })
            &&& placed ==> job.output_path == Some(name)
            &&& !placed ==> next.action == (ActionView::Publish { output: None })
            &&& !placed ==> job.output_path is None
            &&& job.status == s.records[i].job.status
            &&& next.run.stage == Stage::Over
        }),
{
    lemma_alone(s, i);
}

/// Whether a job is active or canceled is told by its own status, wherever its record stands; a
/// job that is gone is not active, and counts as canceled.
pub proof fn a_job_is_told_by_its_own_status(s: StoreView, id: Seq<char>, i: int)
    requires
        store::ids_unique(s.records),
    ensures
        0 <= i < s.records.len() && s.records[i].job.id == id ==> {
            &&& store::active(s, id) <==> match s.records[i].job.status {
                Status::Queued | Status::Transcribing | Status::Translating => true,
                Status::Completed | Status::Failed | Status::Canceled => false,
            }
            &&& canceled(s, id) <==> s.records[i].job.status == Status::Canceled
        },
        (forall|j: int| 0 <= j < s.records.len() ==> (#[trigger] s.records[j]).job.id != id)
            ==> !store::active(s, id) && canceled(s, id),
{
    if 0 <= i < s.records.len() && s.records[i].job.id == id {
        lemma_alone(s, i);
    }
}

} // verus!
