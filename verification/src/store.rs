//! Subtitle jobs, their cues, and the defaults for new ones.
//!
//! Transcribing a film takes minutes, so a job is a record that is created, worked on in the
//! background and polled, rather than a request that waits.
//!
//! A job that was canceled or deleted while a worker was busy with it must never be revived
//! by a late result: every change a worker makes is applied only while the job is active.
//!
//! The cues live with the job. Switching a finished job to another format or layout is a
//! formatting pass over the stored cues, with no second transcription.

use crate::cues;
use crate::cues::Cue;
use crate::cues::CueView;
use crate::cues::Format;
use crate::cues::Layout;
use crate::languages::DEFAULT_TARGET;
use crate::order;
use crate::text;
use vstd::prelude::*;

verus! {

/// Progress of a job that is done, in millionths.
pub const FULL: u64 = 1_000_000;

/// Where a job is in the pipeline.
#[derive(Debug, Clone, Copy, PartialEq, Eq, Structural)]
pub enum Status {
    /// Accepted, waiting for the worker.
    Queued,
    /// Decoding and transcribing windows.
    Transcribing,
    /// Cues exist; the model is translating them.
    Translating,
    /// A subtitle file was written.
    Completed,
    /// It stopped, and `error` says why.
    Failed,
    /// The user canceled it, or the process died in the middle.
    Canceled,
}

impl Status {
    /// The word a status is stored as.
    pub open spec fn word(self) -> Seq<char> {
        match self {
            Status::Queued => "queued"@,
            Status::Transcribing => "transcribing"@,
            Status::Translating => "translating"@,
            Status::Completed => "completed"@,
            Status::Failed => "failed"@,
            Status::Canceled => "canceled"@,
        }
    }

    /// The status that a stored word stands for.
    pub open spec fn of_word(value: Seq<char>) -> Status {
        if value == "transcribing"@ {
            Status::Transcribing
        } else if value == "translating"@ {
            Status::Translating
        } else if value == "completed"@ {
            Status::Completed
        } else if value == "failed"@ {
            Status::Failed
        } else if value == "canceled"@ {
            Status::Canceled
        } else {
            Status::Queued
        }
    }

    /// Whether a job with this status is finished, in any sense.
    pub open spec fn over(self) -> bool {
        self == Status::Completed || self == Status::Failed || self == Status::Canceled
    }

    /// The word a status is stored as, so that a new one never renumbers a stored job.
    #[must_use]
    pub fn as_str(self) -> (r: &'static str)
        ensures
            r@ == self.word(),
    {
        match self {
            Status::Queued => "queued",
            Status::Transcribing => "transcribing",
            Status::Translating => "translating",
            Status::Completed => "completed",
            Status::Failed => "failed",
            Status::Canceled => "canceled",
        }
    }

    /// Reads a stored word.
    pub fn parse(value: &str) -> (r: Self)
        ensures
            r == Status::of_word(value@),
    {
        if text::same_text(value, "transcribing") {
            Status::Transcribing
        } else if text::same_text(value, "translating") {
            Status::Translating
        } else if text::same_text(value, "completed") {
            Status::Completed
        } else if text::same_text(value, "failed") {
            Status::Failed
        } else if text::same_text(value, "canceled") {
            Status::Canceled
        } else {
            Status::Queued
        }
    }

    /// Whether the job is finished, in any sense.
    #[must_use]
    pub fn is_terminal(self) -> (r: bool)
        ensures
            r == self.over(),
    {
        match self {
            Status::Completed | Status::Failed | Status::Canceled => true,
            _ => false,
        }
    }
}

/// A status is read back from the word it is stored as.
pub proof fn status_words_read_back(s: Status)
    ensures
        Status::of_word(s.word()) == s,
{
    reveal_strlit("queued");
    reveal_strlit("transcribing");
    reveal_strlit("translating");
    reveal_strlit("completed");
    reveal_strlit("failed");
    reveal_strlit("canceled");
    assert("queued"@[0] == 'q');
    assert("transcribing"@.len() == 12);
    assert("translating"@.len() == 11);
    assert("completed"@.len() == 9);
    assert("failed"@.len() == 6);
    assert("failed"@[0] == 'f');
    assert("canceled"@.len() == 8);
}

/// The word a layout is stored as.
pub open spec fn layout_word(layout: Layout) -> Seq<char> {
    match layout {
        Layout::Translated => "translated"@,
        Layout::Source => "source"@,
        Layout::Bilingual => "bilingual"@,
    }
}

/// The layout that a stored word stands for.
pub open spec fn layout_of_word(value: Seq<char>) -> Layout {
    if value == "source"@ {
        Layout::Source
    } else if value == "bilingual"@ {
        Layout::Bilingual
    } else {
        Layout::Translated
    }
}

/// The word a layout is stored as.
pub fn layout_str(layout: Layout) -> (r: &'static str)
    ensures
        r@ == layout_word(layout),
{
    match layout {
        Layout::Translated => "translated",
        Layout::Source => "source",
        Layout::Bilingual => "bilingual",
    }
}

/// Reads a stored word for a layout.
pub fn parse_layout(value: &str) -> (r: Layout)
    ensures
        r == layout_of_word(value@),
{
    if text::same_text(value, "source") {
        Layout::Source
    } else if text::same_text(value, "bilingual") {
        Layout::Bilingual
    } else {
        Layout::Translated
    }
}

/// A layout is read back from the word it is stored as.
pub proof fn layout_words_read_back(l: Layout)
    ensures
        layout_of_word(layout_word(l)) == l,
{
    reveal_strlit("translated");
    reveal_strlit("source");
    reveal_strlit("bilingual");
    assert("translated"@.len() == 10);
    assert("source"@.len() == 6);
    assert("bilingual"@.len() == 9);
}

/// One subtitle job. Its cues are kept apart, so that a list of jobs stays small.
#[derive(Debug, Clone, PartialEq, Eq)]
pub struct Job {
    pub id: String,
    /// Absolute path of the source media.
    pub source_path: String,
    /// File name, for display.
    pub source_name: String,
    /// BCP-47 tag of the language the cues are translated into.
    pub target_language: String,
    pub format: Format,
    pub layout: Layout,
    pub status: Status,
    /// Progress across the whole pipeline, in millionths.
    pub progress: u64,
    /// The current step, for people.
    pub stage: String,
    pub error: Option<String>,
    /// Media duration, once the decoder knows it.
    pub duration_ms: Option<u64>,
    pub cue_count: u64,
    /// How many cues the model translated. Fewer than `cue_count` means a partly
    /// untranslated file.
    pub translated_count: u64,
    /// Speech engine used.
    pub engine: String,
    /// Translation model used.
    pub model: String,
    /// Where the subtitle file was written.
    pub output_path: Option<String>,
    pub created_at: i64,
    pub updated_at: i64,
    pub completed_at: Option<i64>,
}

/// A job as a mathematical value.
#[verifier::ext_equal]
pub struct JobView {
    pub id: Seq<char>,
    pub source_path: Seq<char>,
    pub source_name: Seq<char>,
    pub target_language: Seq<char>,
    pub format: Format,
    pub layout: Layout,
    pub status: Status,
    pub progress: u64,
    pub stage: Seq<char>,
    pub error: Option<Seq<char>>,
    pub duration_ms: Option<u64>,
    pub cue_count: u64,
    pub translated_count: u64,
    pub engine: Seq<char>,
    pub model: Seq<char>,
    pub output_path: Option<Seq<char>>,
    pub created_at: i64,
    pub updated_at: i64,
    pub completed_at: Option<i64>,
}

impl View for Job {
    type V = JobView;

    open spec fn view(&self) -> JobView {
        JobView {
            id: self.id@,
            source_path: self.source_path@,
            source_name: self.source_name@,
            target_language: self.target_language@,
            format: self.format,
            layout: self.layout,
            status: self.status,
            progress: self.progress,
            stage: self.stage@,
            error: text::opt(self.error),
            duration_ms: self.duration_ms,
            cue_count: self.cue_count,
            translated_count: self.translated_count,
            engine: self.engine@,
            model: self.model@,
            output_path: text::opt(self.output_path),
            created_at: self.created_at,
            updated_at: self.updated_at,
            completed_at: self.completed_at,
        }
    }
}

impl Job {
    /// A second job with the same contents.
    pub fn duplicate(&self) -> (r: Job)
        ensures
            r@ == self@,
    {
        Job {
            id: self.id.clone(),
            source_path: self.source_path.clone(),
            source_name: self.source_name.clone(),
            target_language: self.target_language.clone(),
            format: self.format,
            layout: self.layout,
            status: self.status,
            progress: self.progress,
            stage: self.stage.clone(),
            error: text::opt_clone(&self.error),
            duration_ms: self.duration_ms,
            cue_count: self.cue_count,
            translated_count: self.translated_count,
            engine: self.engine.clone(),
            model: self.model.clone(),
            output_path: text::opt_clone(&self.output_path),
            created_at: self.created_at,
            updated_at: self.updated_at,
            completed_at: self.completed_at,
        }
    }
}

/// What a caller supplies to create a job, everything optional resolved.
#[derive(Debug, Clone, PartialEq, Eq)]
pub struct NewJob {
    pub source_path: String,
    pub source_name: String,
    pub target_language: String,
    pub format: Format,
    pub layout: Layout,
    pub engine: String,
    pub model: String,
}

/// The job that a request becomes: queued, at zero, with nothing to show yet.
pub open spec fn queued_job(new: NewJob, id: Seq<char>, now: i64) -> JobView {
    JobView {
        id,
        source_path: new.source_path@,
        source_name: new.source_name@,
        target_language: new.target_language@,
        format: new.format,
        layout: new.layout,
        status: Status::Queued,
        progress: 0,
        stage: "Queued"@,
        error: None,
        duration_ms: None,
        cue_count: 0,
        translated_count: 0,
        engine: new.engine@,
        model: new.model@,
        output_path: None,
        created_at: now,
        updated_at: now,
        completed_at: None,
    }
}

/// Defaults used to fill in a job that the caller under-specified.
#[derive(Debug, Clone, PartialEq, Eq)]
pub struct Settings {
    /// Default target language code.
    pub target_language: String,
    pub format: Format,
    pub layout: Layout,
    /// Speech engine. `whisper` is the default and the one that returns timings for each
    /// segment, so changing it is a downgrade rather than a preference.
    pub engine: String,
    /// Translation model; empty means the local default.
    pub model: String,
    /// Whether a finished job also writes the subtitle file next to the video.
    pub write_beside_source: bool,
}

/// Settings as a mathematical value.
#[verifier::ext_equal]
pub struct SettingsView {
    pub target_language: Seq<char>,
    pub format: Format,
    pub layout: Layout,
    pub engine: Seq<char>,
    pub model: Seq<char>,
    pub write_beside_source: bool,
}

impl View for Settings {
    type V = SettingsView;

    open spec fn view(&self) -> SettingsView {
        SettingsView {
            target_language: self.target_language@,
            format: self.format,
            layout: self.layout,
            engine: self.engine@,
            model: self.model@,
            write_beside_source: self.write_beside_source,
        }
    }
}

/// The settings of a node that saved none.
pub open spec fn default_settings() -> SettingsView {
    SettingsView {
        target_language: DEFAULT_TARGET@,
        format: Format::Srt,
        layout: Layout::Translated,
        engine: "whisper"@,
        model: seq![],
        write_beside_source: true,
    }
}

impl Default for Settings {
    fn default() -> (r: Self)
        ensures
            r@ == default_settings(),
    {
        let r = Settings {
            target_language: DEFAULT_TARGET.to_string(),
            format: Format::Srt,
            layout: Layout::Translated,
            engine: "whisper".to_string(),
            model: String::new(),
            write_beside_source: true,
        };
        assert(r@ =~= default_settings());
        r
    }
}

impl Settings {
    /// Second settings with the same contents.
    pub fn duplicate(&self) -> (r: Settings)
        ensures
            r@ == self@,
    {
        Settings {
            target_language: self.target_language.clone(),
            format: self.format,
            layout: self.layout,
            engine: self.engine.clone(),
            model: self.model.clone(),
            write_beside_source: self.write_beside_source,
        }
    }
}

/// A job with its cues.
#[derive(Debug, Clone, PartialEq, Eq)]
pub struct Record {
    pub job: Job,
    pub cues: Vec<Cue>,
}

/// A job with its cues, as a mathematical value.
#[verifier::ext_equal]
pub struct RecordView {
    pub job: JobView,
    pub cues: Seq<CueView>,
}

impl View for Record {
    type V = RecordView;

    open spec fn view(&self) -> RecordView {
        RecordView { job: self.job@, cues: cues::views(self.cues@) }
    }
}

/// What a store holds: the jobs in the order in which they were created, and the settings,
/// once saved.
#[verifier::ext_equal]
pub struct StoreView {
    pub records: Seq<RecordView>,
    pub settings: Option<SettingsView>,
}

/// The jobs of a node, their cues, and its settings.
#[derive(Debug, Clone)]
pub struct SubtitleStore {
    pub records: Vec<Record>,
    pub saved: Option<Settings>,
}

/// The records of a list as mathematical values.
pub open spec fn record_views(records: Seq<Record>) -> Seq<RecordView> {
    records.map_values(|r: Record| r@)
}

impl View for SubtitleStore {
    type V = StoreView;

    open spec fn view(&self) -> StoreView {
        StoreView {
            records: record_views(self.records@),
            settings: match self.saved {
                Some(s) => Some(s@),
                None => None,
            },
        }
    }
}

/// No two jobs share an id.
pub open spec fn ids_unique(records: Seq<RecordView>) -> bool {
    forall|i: int, j: int|
        0 <= i < j < records.len() ==> (#[trigger] records[i]).job.id != (#[trigger] records[j]).job.id
}

/// Whether some job has the id `id`.
pub open spec fn has_job(records: Seq<RecordView>, id: Seq<char>) -> bool {
    exists|i: int| 0 <= i < records.len() && (#[trigger] records[i]).job.id == id
}

/// The job `id` with its cues, if there is one.
pub open spec fn found(records: Seq<RecordView>, id: Seq<char>) -> Option<RecordView> {
    if has_job(records, id) {
        Some(records[choose|i: int| 0 <= i < records.len() && (#[trigger] records[i]).job.id == id])
    } else {
        None
    }
}

/// A job is found under its id.
pub proof fn lemma_found(records: Seq<RecordView>, i: int)
    requires
        ids_unique(records),
        0 <= i < records.len(),
    ensures
        found(records, records[i].job.id) == Some(records[i]),
{
    let id = records[i].job.id;
    let k = choose|k: int| 0 <= k < records.len() && (#[trigger] records[k]).job.id == id;
    if k < i {
        assert(records[k].job.id != records[i].job.id);
    } else if i < k {
        assert(records[i].job.id != records[k].job.id);
    }
}

/// `s` with the job `id` changed by `f`, and everything else as it was.
pub open spec fn changed(s: StoreView, id: Seq<char>, f: spec_fn(RecordView) -> RecordView) -> StoreView {
    StoreView {
        records: s.records.map_values(
            |r: RecordView|
                if r.job.id == id {
                    f(r)
                } else {
                    r
                },
        ),
        ..s
    }
}

/// `s` with the job `id` changed by `f` if it is still active, and everything else as it was.
pub open spec fn changed_if_active(
    s: StoreView,
    id: Seq<char>,
    f: spec_fn(RecordView) -> RecordView,
) -> StoreView {
    changed(
        s,
        id,
        |r: RecordView|
            if r.job.status.over() {
                r
            } else {
                f(r)
            },
    )
}

/// Whether the job `id` exists and is not finished.
pub open spec fn active(s: StoreView, id: Seq<char>) -> bool {
    exists|i: int|
        0 <= i < s.records.len() && (#[trigger] s.records[i]).job.id == id
            && !s.records[i].job.status.over()
}

/// The stamp that is there, or else a new one.
pub open spec fn stamped(stamp: Option<i64>, now: i64) -> Option<i64> {
    match stamp {
        Some(t) => Some(t),
        None => Some(now),
    }
}

/// A record moved to a status. The first stamp wins: moving it every time a finished job is
/// stated again would make it mean when the job was last touched.
pub open spec fn with_status(
    r: RecordView,
    status: Status,
    error: Option<Seq<char>>,
    now: i64,
) -> RecordView {
    RecordView {
        job: JobView {
            status,
            error,
            updated_at: now,
            completed_at: if status.over() {
                stamped(r.job.completed_at, now)
            } else {
                r.job.completed_at
            },
            ..r.job
        },
        ..r
    }
}

/// How many of `cues` have a translation.
pub open spec fn translated(cues: Seq<CueView>) -> nat
    decreases cues.len(),
{
    if cues.len() == 0 {
        0
    } else if cues.last().translated is Some {
        translated(cues.drop_last()) + 1
    } else {
        translated(cues.drop_last())
    }
}

/// A record that is done.
pub open spec fn with_completion(r: RecordView, now: i64) -> RecordView {
    RecordView {
        job: JobView {
            status: Status::Completed,
            progress: FULL,
            stage: "Done"@,
            error: None,
            updated_at: now,
            completed_at: stamped(r.job.completed_at, now),
            ..r.job
        },
        ..r
    }
}

/// A record that got further. Progress never exceeds [`FULL`], and a duration that is known
/// stays known.
pub open spec fn with_progress(
    r: RecordView,
    progress: u64,
    stage: Seq<char>,
    duration_ms: Option<u64>,
    now: i64,
) -> RecordView {
    RecordView {
        job: JobView {
            progress: if progress > FULL {
                FULL
            } else {
                progress
            },
            stage,
            duration_ms: match duration_ms {
                Some(d) => Some(d),
                None => r.job.duration_ms,
            },
            updated_at: now,
            ..r.job
        },
        ..r
    }
}

/// A record with its cues and the counts that follow from them.
pub open spec fn with_cues(r: RecordView, cues: Seq<CueView>, now: i64) -> RecordView {
    RecordView {
        job: JobView {
            cue_count: cues.len() as u64,
            translated_count: translated(cues) as u64,
            updated_at: now,
            ..r.job
        },
        cues,
    }
}

/// A record whose file was written somewhere.
pub open spec fn with_output(r: RecordView, path: Option<Seq<char>>, now: i64) -> RecordView {
    RecordView { job: JobView { output_path: path, updated_at: now, ..r.job }, ..r }
}

/// A record that is to be rendered in another way.
pub open spec fn with_render(r: RecordView, format: Format, layout: Layout, now: i64) -> RecordView {
    RecordView { job: JobView { format, layout, updated_at: now, ..r.job }, ..r }
}

/// A record put back into the queue, its outcome cleared.
pub open spec fn with_requeue(r: RecordView, now: i64) -> RecordView {
    RecordView {
        job: JobView {
            status: Status::Queued,
            progress: 0,
            stage: "Queued"@,
            error: None,
            cue_count: 0,
            translated_count: 0,
            completed_at: None,
            updated_at: now,
            ..r.job
        },
        cues: seq![],
    }
}

/// `s` with the job `id` moved to a status.
pub open spec fn moved(
    s: StoreView,
    id: Seq<char>,
    status: Status,
    error: Option<Seq<char>>,
    now: i64,
) -> StoreView {
    changed(s, id, |r: RecordView| with_status(r, status, error, now))
}

/// `s` with the job `id` moved to a status, if it is still active.
pub open spec fn moved_if_active(
    s: StoreView,
    id: Seq<char>,
    status: Status,
    error: Option<Seq<char>>,
    now: i64,
) -> StoreView {
    changed_if_active(s, id, |r: RecordView| with_status(r, status, error, now))
}

/// `s` with the job `id` done, if it is still active.
pub open spec fn completed(s: StoreView, id: Seq<char>, now: i64) -> StoreView {
    changed_if_active(s, id, |r: RecordView| with_completion(r, now))
}

/// `s` with the job `id` further on, if it is still active.
pub open spec fn progressed(
    s: StoreView,
    id: Seq<char>,
    progress: u64,
    stage: Seq<char>,
    duration_ms: Option<u64>,
    now: i64,
) -> StoreView {
    changed_if_active(s, id, |r: RecordView| with_progress(r, progress, stage, duration_ms, now))
}

/// `s` with the cues of the job `id`, if it is still active.
pub open spec fn cues_stored(
    s: StoreView,
    id: Seq<char>,
    cues: Seq<CueView>,
    now: i64,
) -> StoreView {
    changed_if_active(s, id, |r: RecordView| with_cues(r, cues, now))
}

/// `s` with the place where the file of the job `id` was written.
pub open spec fn output_stored(
    s: StoreView,
    id: Seq<char>,
    path: Option<Seq<char>>,
    now: i64,
) -> StoreView {
    changed(s, id, |r: RecordView| with_output(r, path, now))
}

/// `s` with the job `id` to be rendered in another way.
pub open spec fn render_stored(
    s: StoreView,
    id: Seq<char>,
    format: Format,
    layout: Layout,
    now: i64,
) -> StoreView {
    changed(s, id, |r: RecordView| with_render(r, format, layout, now))
}

/// `s` with the job `id` back in the queue.
pub open spec fn requeued(s: StoreView, id: Seq<char>, now: i64) -> StoreView {
    changed(s, id, |r: RecordView| with_requeue(r, now))
}

impl SubtitleStore {
    /// No two jobs share an id.
    pub open spec fn wf(&self) -> bool {
        ids_unique(self@.records)
    }

    /// An empty store.
    pub fn memory() -> (r: Self)
        ensures
            r.wf(),
            r@ == (StoreView { records: seq![], settings: None }),
    {
        let r = SubtitleStore { records: Vec::new(), saved: None };
        assert(r@ =~= StoreView { records: seq![], settings: None });
        r
    }

    /// Where the job `id` is.
    fn position(&self, id: &str) -> (r: Option<usize>)
        ensures
            match r {
                Some(i) => i < self.records@.len() && self.records@[i as int].job.id@ == id@,
                None => forall|i: int|
                    0 <= i < self.records@.len() ==> (#[trigger] self.records@[i]).job.id@ != id@,
            },
    {
        let mut i: usize = 0;
        while i < self.records.len()
            invariant
                i <= self.records@.len(),
                forall|j: int|
                    0 <= j < i ==> (#[trigger] self.records@[j]).job.id@ != id@,
            decreases self.records@.len() - i,
        {
            if text::same_text(&self.records[i].job.id, id) {
                return Some(i);
            }
            i += 1;
        }
        None
    }

    /// Moves a job to a status at the time `now`, with the reason if there is one.
    pub fn set_status_at(&mut self, id: &str, status: Status, error: Option<&str>, now: i64)
        requires
            old(self).wf(),
        ensures
            final(self).wf(),
            final(self)@ == moved(old(self)@, id@, status, opt_str(error), now),
    {
        let ghost f = |r: RecordView| with_status(r, status, opt_str(error), now);
        let ghost before = self@;
        match self.position(id) {
            Some(i) => {
                self.records[i].job.status = status;
                self.records[i].job.error = owned(error);
                self.records[i].job.updated_at = now;
                if status.is_terminal() && self.records[i].job.completed_at.is_none() {
                    self.records[i].job.completed_at = Some(now);
                }
                proof {
                    lemma_changed_at(before, self@, i as int, f);
                }
            },
            None => {
                proof {
                    lemma_changed_nowhere(before, id@, f);
                }
            },
        }
    }
}

/// The text of an optional string slice.
pub open spec fn opt_str(s: Option<&str>) -> Option<Seq<char>> {
    match s {
        Some(t) => Some(t@),
        None => None,
    }
}

fn owned(s: Option<&str>) -> (r: Option<String>)
    ensures
        text::opt(r) == opt_str(s),
{
    match s {
        Some(t) => Some(t.to_string()),
        None => None,
    }
}

proof fn lemma_changed_at(
    before: StoreView,
    after: StoreView,
    i: int,
    f: spec_fn(RecordView) -> RecordView,
)
    requires
        ids_unique(before.records),
        0 <= i < before.records.len(),
        after.settings == before.settings,
        after.records =~= before.records.update(i, f(before.records[i])),
        f(before.records[i]).job.id == before.records[i].job.id,
    ensures
        after == changed(before, before.records[i].job.id, f),
        ids_unique(after.records),
{
    let id = before.records[i].job.id;
    let want = changed(before, id, f);
    assert forall|j: int| 0 <= j < before.records.len() implies want.records[j]
        == after.records[j] by {
        if j < i {
            assert(before.records[j].job.id != before.records[i].job.id);
        } else if j > i {
            assert(before.records[i].job.id != before.records[j].job.id);
        }
    }
    assert(want.records =~= after.records);
    assert forall|a: int, b: int| 0 <= a < b < after.records.len() implies (
    #[trigger] after.records[a]).job.id != (#[trigger] after.records[b]).job.id by {
        assert(before.records[a].job.id != before.records[b].job.id);
    }
}

proof fn lemma_changed_nowhere(s: StoreView, id: Seq<char>, f: spec_fn(RecordView) -> RecordView)
    requires
        forall|i: int| 0 <= i < s.records.len() ==> (#[trigger] s.records[i]).job.id != id,
    ensures
        changed(s, id, f) == s,
{
    assert(changed(s, id, f).records =~= s.records);
}

/// Whether a status claims that a worker is busy with the job.
pub open spec fn running(status: Status) -> bool {
    status == Status::Transcribing || status == Status::Translating
}

/// A record whose worker is gone.
pub open spec fn with_interruption(r: RecordView, now: i64) -> RecordView {
    RecordView {
        job: JobView {
            status: Status::Canceled,
            stage: "Interrupted by a restart"@,
            error: Some("The node restarted while this job was running."@),
            updated_at: now,
            ..r.job
        },
        ..r
    }
}

/// `s` after a restart: what claimed to be running is canceled, everything else is as it was.
pub open spec fn restarted(s: StoreView, now: i64) -> StoreView {
    StoreView {
        records: s.records.map_values(
            |r: RecordView|
                if running(r.job.status) {
                    with_interruption(r, now)
                } else {
                    r
                },
        ),
        ..s
    }
}

/// How many of `records` claim to be running.
pub open spec fn running_count(records: Seq<RecordView>) -> nat
    decreases records.len(),
{
    if records.len() == 0 {
        0
    } else if running(records.last().job.status) {
        running_count(records.drop_last()) + 1
    } else {
        running_count(records.drop_last())
    }
}

/// `records` without the job `id`.
pub open spec fn without(records: Seq<RecordView>, id: Seq<char>) -> Seq<RecordView>
    decreases records.len(),
{
    if records.len() == 0 {
        seq![]
    } else if records.last().job.id == id {
        without(records.drop_last(), id)
    } else {
        without(records.drop_last(), id).push(records.last())
    }
}

proof fn lemma_active(s: StoreView, i: int)
    requires
        ids_unique(s.records),
        0 <= i < s.records.len(),
    ensures
        active(s, s.records[i].job.id) == !s.records[i].job.status.over(),
{
    let id = s.records[i].job.id;
    if active(s, id) {
        let j = choose|j: int|
            0 <= j < s.records.len() && (#[trigger] s.records[j]).job.id == id
                && !s.records[j].job.status.over();
        if j < i {
            assert(s.records[j].job.id != s.records[i].job.id);
        } else if i < j {
            assert(s.records[i].job.id != s.records[j].job.id);
        }
    }
}

fn count_translated(list: &[Cue]) -> (r: u64)
    ensures
        r == translated(cues::views(list@)),
        r <= list@.len(),
{
    let mut n: u64 = 0;
    let mut i: usize = 0;
    while i < list.len()
        invariant
            i <= list@.len(),
            n <= i,
            n == translated(cues::views(list@).take(i as int)),
        decreases list@.len() - i,
    {
        assert(cues::views(list@).take(i + 1).drop_last() =~= cues::views(list@).take(i as int));
        if list[i].translated.is_some() {
            n += 1;
        }
        i += 1;
    }
    assert(cues::views(list@).take(i as int) =~= cues::views(list@));
    n
}

/// Second cues with the same contents.
pub fn copy_cues(list: &[Cue]) -> (r: Vec<Cue>)
    ensures
        cues::views(r@) == cues::views(list@),
{
    let mut out: Vec<Cue> = Vec::new();
    let mut i: usize = 0;
    while i < list.len()
        invariant
            i <= list@.len(),
            cues::views(out@) == cues::views(list@).take(i as int),
        decreases list@.len() - i,
    {
        let ghost before = cues::views(out@);
        out.push(list[i].duplicate());
        assert(cues::views(out@) =~= before.push(list@[i as int]@));
        assert(cues::views(list@).take(i + 1) =~= cues::views(list@).take(i as int).push(
            list@[i as int]@,
        ));
        i += 1;
    }
    assert(cues::views(list@).take(i as int) =~= cues::views(list@));
    out
}

impl SubtitleStore {
    /// Where the job `id` is, if it is still active.
    fn active_position(&self, id: &str) -> (r: Option<usize>)
        requires
            self.wf(),
        ensures
            match r {
                Some(i) => {
                    &&& i < self.records@.len()
                    &&& self.records@[i as int].job.id@ == id@
                    &&& !self.records@[i as int].job.status.over()
                    &&& active(self@, id@)
                },
                None => {
                    &&& !active(self@, id@)
                    &&& forall|f: spec_fn(RecordView) -> RecordView|
                        #[trigger] changed_if_active(self@, id@, f) == self@
                },
            },
    {
        match self.position(id) {
            Some(i) => {
                proof {
                    lemma_active(self@, i as int);
                    assert(self@.records[i as int] == self.records@[i as int]@);
                }
                if self.records[i].job.status.is_terminal() {
                    proof {
                        assert forall|f: spec_fn(RecordView) -> RecordView|
                            #[trigger] changed_if_active(self@, id@, f) == self@ by {
                            lemma_changed_terminal(self@, i as int, f);
                        }
                    }
                    None
                } else {
                    Some(i)
                }
            },
            None => {
                proof {
                    assert forall|f: spec_fn(RecordView) -> RecordView|
                        #[trigger] changed_if_active(self@, id@, f) == self@ by {
                        lemma_changed_nowhere(
                            self@,
                            id@,
                            |r: RecordView|
                                if r.job.status.over() {
                                    r
                                } else {
                                    f(r)
                                },
                        );
                    }
                }
                None
            },
        }
    }

    /// Moves a job that a worker owns to a status at the time `now`, if it is still active.
    pub fn set_status_if_active_at(
        &mut self,
        id: &str,
        status: Status,
        error: Option<&str>,
        now: i64,
    ) -> (r: bool)
        requires
            old(self).wf(),
        ensures
            final(self).wf(),
            r == active(old(self)@, id@),
            final(self)@ == moved_if_active(old(self)@, id@, status, opt_str(error), now),
    {
        let ghost f = |r: RecordView| with_status(r, status, opt_str(error), now);
        let ghost before = self@;
        match self.active_position(id) {
            Some(i) => {
                self.records[i].job.status = status;
                self.records[i].job.error = owned(error);
                self.records[i].job.updated_at = now;
                if status.is_terminal() && self.records[i].job.completed_at.is_none() {
                    self.records[i].job.completed_at = Some(now);
                }
                proof {
                    lemma_changed_active(before, self@, i as int, f);
                }
                true
            },
            None => {
                assert(changed_if_active(before, id@, f) == before);
                false
            },
        }
    }

    /// Cancels a job at the time `now`, if no worker has committed an outcome yet.
    pub fn cancel_if_active_at(&mut self, id: &str, reason: &str, now: i64) -> (r: bool)
        requires
            old(self).wf(),
        ensures
            final(self).wf(),
            r == active(old(self)@, id@),
            final(self)@ == moved_if_active(
                    old(self)@,
                    id@,
                    Status::Canceled,
                    Some(reason@),
                    now,
                ),
    {
        self.set_status_if_active_at(id, Status::Canceled, Some(reason), now)
    }

    /// Commits completion at the time `now`, if the job is still active. Output may be
    /// published only when this succeeds.
    pub fn complete_if_active_at(&mut self, id: &str, now: i64) -> (r: bool)
        requires
            old(self).wf(),
        ensures
            final(self).wf(),
            r == active(old(self)@, id@),
            final(self)@ == completed(old(self)@, id@, now),
    {
        let ghost f = |r: RecordView| with_completion(r, now);
        let ghost before = self@;
        match self.active_position(id) {
            Some(i) => {
                self.records[i].job.status = Status::Completed;
                self.records[i].job.progress = FULL;
                self.records[i].job.stage = "Done".to_string();
                self.records[i].job.error = None;
                self.records[i].job.updated_at = now;
                if self.records[i].job.completed_at.is_none() {
                    self.records[i].job.completed_at = Some(now);
                }
                proof {
                    lemma_changed_active(before, self@, i as int, f);
                }
                true
            },
            None => {
                assert(changed_if_active(before, id@, f) == before);
                false
            },
        }
    }

    /// Records progress at the time `now`, if the job is still active.
    pub fn set_progress_at(
        &mut self,
        id: &str,
        progress: u64,
        stage: &str,
        duration_ms: Option<u64>,
        now: i64,
    )
        requires
            old(self).wf(),
        ensures
            final(self).wf(),
            final(self)@ == progressed(old(self)@, id@, progress, stage@, duration_ms, now),
    {
        let ghost f = |r: RecordView| with_progress(r, progress, stage@, duration_ms, now);
        let ghost before = self@;
        match self.active_position(id) {
            Some(i) => {
                self.records[i].job.progress = if progress > FULL {
                    FULL
                } else {
                    progress
                };
                self.records[i].job.stage = stage.to_string();
                if duration_ms.is_some() {
                    self.records[i].job.duration_ms = duration_ms;
                }
                self.records[i].job.updated_at = now;
                proof {
                    lemma_changed_active(before, self@, i as int, f);
                }
            },
            None => {
                assert(changed_if_active(before, id@, f) == before);
            },
        }
    }

    /// Stores the finished cues, and the counts that follow from them, at the time `now`, if
    /// the job is still active.
    pub fn set_cues_at(&mut self, id: &str, list: &[Cue], now: i64)
        requires
            old(self).wf(),
        ensures
            final(self).wf(),
            final(self)@ == cues_stored(old(self)@, id@, cues::views(list@), now),
    {
        let ghost f = |r: RecordView| with_cues(r, cues::views(list@), now);
        let ghost before = self@;
        match self.active_position(id) {
            Some(i) => {
                self.records[i].job.cue_count = list.len() as u64;
                self.records[i].job.translated_count = count_translated(list);
                self.records[i].job.updated_at = now;
                self.records[i].cues = copy_cues(list);
                proof {
                    lemma_changed_active(before, self@, i as int, f);
                }
            },
            None => {
                assert(changed_if_active(before, id@, f) == before);
            },
        }
    }

    /// The cues of a job: none where there is no such job.
    pub fn cues(&self, id: &str) -> (r: Vec<Cue>)
        requires
            self.wf(),
        ensures
            cues::views(r@) == match found(self@.records, id@) {
                Some(record) => record.cues,
                None => seq![],
            },
    {
        match self.position(id) {
            Some(k) => {
                proof {
                    assert(self@.records[k as int] == self.records@[k as int]@);
                    lemma_found(self@.records, k as int);
                }
                copy_cues(self.records[k].cues.as_slice())
            },
            None => {
                proof {
                    assert forall|i: int| 0 <= i < self@.records.len() implies (
                    #[trigger] self@.records[i]).job.id != id@ by {
                        assert(self@.records[i] == self.records@[i]@);
                    }
                }
                let none: Vec<Cue> = Vec::new();
                assert(cues::views(none@) =~= seq![]);
                none
            },
        }
    }

    /// Records at the time `now` where the file was written.
    pub fn set_output_path_at(&mut self, id: &str, path: Option<&str>, now: i64)
        requires
            old(self).wf(),
        ensures
            final(self).wf(),
            final(self)@ == output_stored(old(self)@, id@, opt_str(path), now),
    {
        let ghost f = |r: RecordView| with_output(r, opt_str(path), now);
        let ghost before = self@;
        match self.position(id) {
            Some(i) => {
                self.records[i].job.output_path = owned(path);
                self.records[i].job.updated_at = now;
                proof {
                    lemma_changed_at(before, self@, i as int, f);
                }
            },
            None => {
                proof {
                    lemma_changed_nowhere(before, id@, f);
                }
            },
        }
    }

    /// Changes at the time `now` how a job is rendered.
    pub fn set_render_options_at(&mut self, id: &str, format: Format, layout: Layout, now: i64)
        requires
            old(self).wf(),
        ensures
            final(self).wf(),
            final(self)@ == render_stored(old(self)@, id@, format, layout, now),
    {
        let ghost f = |r: RecordView| with_render(r, format, layout, now);
        let ghost before = self@;
        match self.position(id) {
            Some(i) => {
                self.records[i].job.format = format;
                self.records[i].job.layout = layout;
                self.records[i].job.updated_at = now;
                proof {
                    lemma_changed_at(before, self@, i as int, f);
                }
            },
            None => {
                proof {
                    lemma_changed_nowhere(before, id@, f);
                }
            },
        }
    }

    /// Puts a job back into the queue at the time `now`, clearing its outcome.
    pub fn requeue_at(&mut self, id: &str, now: i64)
        requires
            old(self).wf(),
        ensures
            final(self).wf(),
            final(self)@ == requeued(old(self)@, id@, now),
    {
        let ghost f = |r: RecordView| with_requeue(r, now);
        let ghost before = self@;
        match self.position(id) {
            Some(i) => {
                self.records[i].job.status = Status::Queued;
                self.records[i].job.progress = 0;
                self.records[i].job.stage = "Queued".to_string();
                self.records[i].job.error = None;
                self.records[i].job.cue_count = 0;
                self.records[i].job.translated_count = 0;
                self.records[i].job.completed_at = None;
                self.records[i].job.updated_at = now;
                self.records[i].cues = Vec::new();
                proof {
                    assert(cues::views(self.records@[i as int].cues@) =~= seq![]);
                    lemma_changed_at(before, self@, i as int, f);
                }
            },
            None => {
                proof {
                    lemma_changed_nowhere(before, id@, f);
                }
            },
        }
    }
}

proof fn lemma_changed_active(
    before: StoreView,
    after: StoreView,
    i: int,
    f: spec_fn(RecordView) -> RecordView,
)
    requires
        ids_unique(before.records),
        0 <= i < before.records.len(),
        !before.records[i].job.status.over(),
        after.settings == before.settings,
        after.records =~= before.records.update(i, f(before.records[i])),
        f(before.records[i]).job.id == before.records[i].job.id,
    ensures
        after == changed_if_active(before, before.records[i].job.id, f),
        ids_unique(after.records),
{
    let g = |r: RecordView|
        if r.job.status.over() {
            r
        } else {
            f(r)
        };
    lemma_changed_at(before, after, i, g);
}

proof fn lemma_changed_terminal(s: StoreView, i: int, f: spec_fn(RecordView) -> RecordView)
    requires
        ids_unique(s.records),
        0 <= i < s.records.len(),
        s.records[i].job.status.over(),
    ensures
        changed_if_active(s, s.records[i].job.id, f) == s,
{
    let g = |r: RecordView|
        if r.job.status.over() {
            r
        } else {
            f(r)
        };
    assert(s.records =~= s.records.update(i, g(s.records[i])));
    lemma_changed_at(s, s, i, g);
}

/// The jobs of a list as mathematical values.
pub open spec fn job_views(jobs: Seq<Job>) -> Seq<JobView> {
    jobs.map_values(|j: Job| j@)
}

/// The jobs of `records`.
pub open spec fn jobs_of(records: Seq<RecordView>) -> Seq<JobView> {
    records.map_values(|r: RecordView| r.job)
}

/// The order of jobs by age.
pub open spec fn older() -> spec_fn(JobView, JobView) -> bool {
    |a: JobView, b: JobView| a.created_at < b.created_at
}

/// The jobs of `records` from the oldest to the newest, those of one moment as they came.
pub open spec fn by_age(records: Seq<RecordView>) -> Seq<JobView> {
    order::sorted(jobs_of(records), older())
}

impl order::Ranked for Job {
    open spec fn rank() -> spec_fn(JobView, JobView) -> bool {
        older()
    }

    open spec fn ready(&self) -> bool {
        true
    }

    fn goes_before(&self, other: &Self) -> (r: bool) {
        self.created_at < other.created_at
    }
}

/// The newest jobs first, no more than `limit` of them.
pub open spec fn newest(records: Seq<RecordView>, limit: nat) -> Seq<JobView> {
    let all = by_age(records).reverse();
    if limit < all.len() {
        all.take(limit as int)
    } else {
        all
    }
}

/// The oldest job that waits for the worker; of those of one moment, the one that came first.
pub open spec fn next_in_line(records: Seq<RecordView>) -> Option<JobView>
    decreases records.len(),
{
    if records.len() == 0 {
        None
    } else {
        let last = records.last().job;
        match next_in_line(records.drop_last()) {
            Some(j) if !(last.status == Status::Queued && last.created_at < j.created_at) => Some(
                j,
            ),
            None if last.status != Status::Queued => None,
            _ => Some(last),
        }
    }
}

/// A job as it is stored, one plain value for each column.
#[derive(Debug, Clone, PartialEq, Eq)]
pub struct StoredRow {
    pub id: String,
    pub source_path: String,
    pub source_name: String,
    pub target_language: String,
    pub format: String,
    pub layout: String,
    pub status: String,
    pub progress: u64,
    pub stage: String,
    pub error: Option<String>,
    pub duration_ms: Option<i64>,
    pub cue_count: i64,
    pub translated_count: i64,
    pub engine: String,
    pub model: String,
    pub output_path: Option<String>,
    pub created_at: i64,
    pub updated_at: i64,
    pub completed_at: Option<i64>,
}

/// A count that is not negative.
pub open spec fn at_least_zero(n: i64) -> u64 {
    if n < 0 {
        0
    } else {
        n as u64
    }
}

fn not_negative(n: i64) -> (r: u64)
    ensures
        r == at_least_zero(n),
{
    if n < 0 {
        0
    } else {
        n as u64
    }
}

/// The job that a stored row stands for. A word that is not known means the default.
pub open spec fn stored_job(row: StoredRow) -> JobView {
    JobView {
        id: row.id@,
        source_path: row.source_path@,
        source_name: row.source_name@,
        target_language: row.target_language@,
        format: match cues::format_named(row.format@) {
            Some(f) => f,
            None => Format::Srt,
        },
        layout: layout_of_word(row.layout@),
        status: Status::of_word(row.status@),
        progress: row.progress,
        stage: row.stage@,
        error: text::opt(row.error),
        duration_ms: match row.duration_ms {
            Some(d) => Some(at_least_zero(d)),
            None => None,
        },
        cue_count: at_least_zero(row.cue_count),
        translated_count: at_least_zero(row.translated_count),
        engine: row.engine@,
        model: row.model@,
        output_path: text::opt(row.output_path),
        created_at: row.created_at,
        updated_at: row.updated_at,
        completed_at: row.completed_at,
    }
}

/// Reads a stored row.
pub fn row_to_job(row: StoredRow) -> (r: Job)
    ensures
        r@ == stored_job(row),
{
    let format = match Format::parse(&row.format) {
        Some(f) => f,
        None => Format::default(),
    };
    Job {
        format,
        layout: parse_layout(&row.layout),
        status: Status::parse(&row.status),
        id: row.id,
        source_path: row.source_path,
        source_name: row.source_name,
        target_language: row.target_language,
        progress: row.progress,
        stage: row.stage,
        error: row.error,
        duration_ms: match row.duration_ms {
            Some(d) => Some(not_negative(d)),
            None => None,
        },
        cue_count: not_negative(row.cue_count),
        translated_count: not_negative(row.translated_count),
        engine: row.engine,
        model: row.model,
        output_path: row.output_path,
        created_at: row.created_at,
        updated_at: row.updated_at,
        completed_at: row.completed_at,
    }
}

impl SubtitleStore {
    /// Adds a record. Refuses one whose id is taken.
    fn add(&mut self, record: Record) -> (r: bool)
        requires
            old(self).wf(),
        ensures
            final(self).wf(),
            r == !has_job(old(self)@.records, record@.job.id),
            final(self)@ == if r {
                StoreView { records: old(self)@.records.push(record@), ..old(self)@ }
            } else {
                old(self)@
            },
    {
        let ghost before = self@;
        match self.position(&record.job.id) {
            Some(i) => {
                assert(before.records[i as int] == self.records@[i as int]@);
                false
            },
            None => {
                proof {
                    assert forall|i: int| 0 <= i < before.records.len() implies (
                    #[trigger] before.records[i]).job.id != record@.job.id by {
                        assert(before.records[i] == self.records@[i]@);
                    }
                }
                self.records.push(record);
                assert(self@.records =~= before.records.push(record@));
                true
            },
        }
    }

    /// Puts a job that was stored earlier back, with its cues. Refuses one whose id is taken.
    pub fn restore(&mut self, row: StoredRow, list: Vec<Cue>) -> (r: bool)
        requires
            old(self).wf(),
        ensures
            final(self).wf(),
            r == !has_job(old(self)@.records, row.id@),
            final(self)@ == if r {
                StoreView {
                    records: old(self)@.records.push(
                        RecordView { job: stored_job(row), cues: cues::views(list@) },
                    ),
                    ..old(self)@
                }
            } else {
                old(self)@
            },
    {
        self.add(Record { job: row_to_job(row), cues: list })
    }

    /// Inserts a queued job under the id `id`, created at the time `now`, and returns it.
    /// Nothing is inserted where the id is taken.
    pub fn insert_job(&mut self, new: NewJob, id: String, now: i64) -> (r: Option<Job>)
        requires
            old(self).wf(),
        ensures
            final(self).wf(),
            has_job(old(self)@.records, id@) ==> r is None && final(self)@ == old(self)@,
            !has_job(old(self)@.records, id@) ==> {
                &&& r is Some
                &&& r->0@ == queued_job(new, id@, now)
                &&& final(self)@ == (StoreView {
                    records: old(self)@.records.push(
                        RecordView { job: queued_job(new, id@, now), cues: seq![] },
                    ),
                    ..old(self)@
                })
            },
    {
        let job = Job {
            id,
            source_path: new.source_path,
            source_name: new.source_name,
            target_language: new.target_language,
            format: new.format,
            layout: new.layout,
            status: Status::Queued,
            progress: 0,
            stage: "Queued".to_string(),
            error: None,
            duration_ms: None,
            cue_count: 0,
            translated_count: 0,
            engine: new.engine,
            model: new.model,
            output_path: None,
            created_at: now,
            updated_at: now,
            completed_at: None,
        };
        let copy = job.duplicate();
        let record = Record { job, cues: Vec::new() };
        assert(record@ =~= RecordView { job: queued_job(new, id@, now), cues: seq![] });
        if self.add(record) {
            Some(copy)
        } else {
            None
        }
    }

    /// Newest first. `limit` caps the list, so that a node with many jobs still answers
    /// quickly.
    pub fn list_jobs(&self, limit: usize) -> (r: Vec<Job>)
        ensures
            job_views(r@) == newest(self@.records, limit as nat),
    {
        let mut sorted: Vec<Job> = Vec::new();
        let mut i: usize = 0;
        assert(job_views(sorted@) =~= seq![]);
        while i < self.records.len()
            invariant
                i <= self.records@.len(),
                job_views(sorted@) == by_age(self@.records.take(i as int)),
            decreases self.records@.len() - i,
        {
            let ghost seen = jobs_of(self@.records.take(i as int));
            let ghost before = sorted@;
            let job = self.records[i].job.duplicate();
            assert(jobs_of(self@.records.take(i + 1)) =~= seen.push(job@));
            assert(seen.push(job@).drop_last() =~= seen);
            order::insert(&mut sorted, job);
            assert(order::views(before) =~= job_views(before));
            assert(order::views(sorted@) =~= job_views(sorted@));
            i += 1;
        }
        assert(self@.records.take(i as int) =~= self@.records);
        let ghost all = by_age(self@.records).reverse();
        let mut out: Vec<Job> = Vec::new();
        let mut k: usize = sorted.len();
        assert(job_views(out@) =~= all.take(0));
        while k > 0 && out.len() < limit
            invariant
                k <= sorted@.len(),
                out@.len() == sorted@.len() - k,
                out@.len() <= limit,
                all == job_views(sorted@).reverse(),
                job_views(out@) == all.take(out@.len() as int),
            decreases k,
        {
            k -= 1;
            let ghost before = job_views(out@);
            out.push(sorted[k].duplicate());
            assert(job_views(out@) =~= before.push(job_views(sorted@)[k as int]));
            assert(all.take(out@.len() as int) =~= all.take(out@.len() - 1).push(
                all[out@.len() - 1],
            ));
        }
        assert(all.take(all.len() as int) =~= all);
        out
    }

    /// The job `id`, if there is one.
    pub fn get_job(&self, id: &str) -> (r: Option<Job>)
        requires
            self.wf(),
        ensures
            match (r, found(self@.records, id@)) {
                (Some(job), Some(record)) => job@ == record.job && job@.id == id@,
                (None, None) => true,
                _ => false,
            },
    {
        match self.position(id) {
            Some(i) => {
                proof {
                    assert(self@.records[i as int] == self.records@[i as int]@);
                    lemma_found(self@.records, i as int);
                }
                Some(self.records[i].job.duplicate())
            },
            None => {
                proof {
                    assert forall|i: int| 0 <= i < self@.records.len() implies (
                    #[trigger] self@.records[i]).job.id != id@ by {
                        assert(self@.records[i] == self.records@[i]@);
                    }
                }
                None
            },
        }
    }

    /// The next job for the worker, oldest first. One at a time: two transcriptions at once
    /// make both slower.
    pub fn next_queued(&self) -> (r: Option<Job>)
        ensures
            match r {
                Some(j) => next_in_line(self@.records) == Some(j@),
                None => next_in_line(self@.records) is None,
            },
    {
        let mut best: Option<usize> = None;
        let mut i: usize = 0;
        while i < self.records.len()
            invariant
                i <= self.records@.len(),
                match best {
                    Some(b) => b < self.records@.len() && next_in_line(
                        self@.records.take(i as int),
                    ) == Some(self.records@[b as int].job@),
                    None => next_in_line(self@.records.take(i as int)) is None,
                },
            decreases self.records@.len() - i,
        {
            assert(self@.records.take(i + 1).drop_last() =~= self@.records.take(i as int));
            assert(self@.records.take(i + 1).last() == self.records@[i as int]@);
            if self.records[i].job.status == Status::Queued {
                let better = match best {
                    Some(b) => self.records[i].job.created_at < self.records[b].job.created_at,
                    None => true,
                };
                if better {
                    best = Some(i);
                }
            }
            i += 1;
        }
        assert(self@.records.take(i as int) =~= self@.records);
        match best {
            Some(b) => Some(self.records[b].job.duplicate()),
            None => None,
        }
    }

    /// Deletes the job `id`, and says whether there was one.
    pub fn delete_job(&mut self, id: &str) -> (r: bool)
        requires
            old(self).wf(),
        ensures
            final(self).wf(),
            r == has_job(old(self)@.records, id@),
            final(self)@ == (StoreView { records: without(old(self)@.records, id@), ..old(self)@ }),
    {
        let ghost before = self@;
        match self.position(id) {
            Some(i) => {
                assert(before.records[i as int] == self.records@[i as int]@);
                let _gone = self.records.remove(i);
                proof {
                    assert(self@.records =~= before.records.remove(i as int));
                    lemma_without_at(before.records, i as int);
                }
                true
            },
            None => {
                proof {
                    assert forall|i: int| 0 <= i < before.records.len() implies (
                    #[trigger] before.records[i]).job.id != id@ by {
                        assert(before.records[i] == self.records@[i]@);
                    }
                    lemma_without_none(before.records, id@);
                }
                false
            },
        }
    }

    /// At boot, anything that claims to be running is a lie: whatever was running it is gone.
    /// Cancels those at the time `now`, and says how many there were.
    pub fn reset_interrupted_at(&mut self, now: i64) -> (r: usize)
        requires
            old(self).wf(),
        ensures
            final(self).wf(),
            r == running_count(old(self)@.records),
            final(self)@ == restarted(old(self)@, now),
    {
        let ghost before = self@;
        let ghost want = restarted(before, now);
        let mut n: usize = 0;
        let mut i: usize = 0;
        while i < self.records.len()
            invariant
                i <= self.records@.len(),
                n <= i,
                self@.settings == before.settings,
                self@.records.len() == before.records.len(),
                want == restarted(before, now),
                n == running_count(before.records.take(i as int)),
                forall|j: int| 0 <= j < i ==> #[trigger] self@.records[j] == want.records[j],
                forall|j: int|
                    i <= j < before.records.len() ==> #[trigger] self@.records[j]
                        == before.records[j],
            decreases self.records@.len() - i,
        {
            assert(before.records.take(i + 1).drop_last() =~= before.records.take(i as int));
            assert(self@.records[i as int] == before.records[i as int]);
            assert(self@.records[i as int] == self.records@[i as int]@);
            let busy = match self.records[i].job.status {
                Status::Transcribing | Status::Translating => true,
                _ => false,
            };
            let ghost now_view = self@;
            if busy {
                self.records[i].job.status = Status::Canceled;
                self.records[i].job.stage = "Interrupted by a restart".to_string();
                self.records[i].job.error =
                Some("The node restarted while this job was running.".to_string());
                self.records[i].job.updated_at = now;
                n += 1;
                assert(self@.records =~= now_view.records.update(
                    i as int,
                    with_interruption(before.records[i as int], now),
                ));
            }
            i += 1;
        }
        assert(before.records.take(i as int) =~= before.records);
        assert(self@.records =~= want.records);
        proof {
            assert forall|a: int, b: int| 0 <= a < b < want.records.len() implies (
            #[trigger] want.records[a]).job.id != (#[trigger] want.records[b]).job.id by {
                assert(before.records[a].job.id != before.records[b].job.id);
            }
        }
        n
    }

    /// The settings: the defaults until some are saved.
    pub fn settings(&self) -> (r: Settings)
        ensures
            r@ == match self@.settings {
                Some(s) => s,
                None => default_settings(),
            },
    {
        match &self.saved {
            Some(s) => s.duplicate(),
            None => Settings::default(),
        }
    }

    /// Saves the settings.
    pub fn save_settings(&mut self, settings: &Settings)
        requires
            old(self).wf(),
        ensures
            final(self).wf(),
            final(self)@ == (StoreView { settings: Some(settings@), ..old(self)@ }),
    {
        self.saved = Some(settings.duplicate());
    }

    /// How many jobs there are.
    pub fn job_count(&self) -> (r: u64)
        ensures
            r == self@.records.len(),
    {
        self.records.len() as u64
    }
}

proof fn lemma_without_none(records: Seq<RecordView>, id: Seq<char>)
    requires
        forall|i: int| 0 <= i < records.len() ==> (#[trigger] records[i]).job.id != id,
    ensures
        without(records, id) == records,
    decreases records.len(),
{
    if records.len() > 0 {
        let front = records.drop_last();
        assert forall|i: int| 0 <= i < front.len() implies (#[trigger] front[i]).job.id != id by {
            assert(front[i] == records[i]);
        }
        assert(records[records.len() - 1].job.id != id);
        lemma_without_none(front, id);
        assert(front.push(records.last()) =~= records);
    }
}

proof fn lemma_without_at(records: Seq<RecordView>, i: int)
    requires
        ids_unique(records),
        0 <= i < records.len(),
    ensures
        without(records, records[i].job.id) == records.remove(i),
        ids_unique(records.remove(i)),
    decreases records.len(),
{
    let id = records[i].job.id;
    let front = records.drop_last();
    assert forall|a: int, b: int| 0 <= a < b < front.len() implies (#[trigger] front[a]).job.id != (
    #[trigger] front[b]).job.id by {
        assert(records[a].job.id != records[b].job.id);
    }
    if i < records.len() - 1 {
        lemma_without_at(front, i);
        assert(records[i].job.id != records[records.len() - 1].job.id);
        assert(records.remove(i) =~= front.remove(i).push(records.last()));
    } else {
        assert forall|k: int| 0 <= k < front.len() implies (#[trigger] front[k]).job.id != id by {
            assert(records[k].job.id != records[i].job.id);
        }
        lemma_without_none(front, id);
        assert(records.remove(i) =~= front);
    }
    let rest = records.remove(i);
    assert forall|a: int, b: int| 0 <= a < b < rest.len() implies (#[trigger] rest[a]).job.id != (
    #[trigger] rest[b]).job.id by {
        let x = if a < i {
            a
        } else {
            a + 1
        };
        let y = if b < i {
            b
        } else {
            b + 1
        };
        assert(records[x].job.id != records[y].job.id);
    }
}

/// Milliseconds since the epoch, by `chrono::Utc::now` and `timestamp_millis`. The clock is
/// read anew by each call; a clock before the epoch is not supported, so the count is never
/// negative.
#[verifier::external_body]
fn now_ms() -> (r: i64)
    ensures
        r >= 0,
{
    chrono::Utc::now().timestamp_millis()
}

/// The time for a change that is about to be made, in milliseconds since the epoch.
pub fn now() -> (r: i64)
    ensures
        r >= 0,
{
    now_ms()
}

/// A digit of a lower-case hexadecimal number.
pub open spec fn hex(c: char) -> bool {
    '0' <= c <= '9' || 'a' <= c <= 'f'
}

/// A random identifier, by `uuid::Uuid::new_v4` in its `simple` form: 32 lower-case
/// hexadecimal digits, chosen anew by each call.
#[verifier::external_body]
fn random_id() -> (r: String)
    ensures
        r@.len() == 32,
        forall|i: int| 0 <= i < r@.len() ==> hex(#[trigger] r@[i]),
{
    uuid::Uuid::new_v4().simple().to_string()
}

/// The shape of the id of a new job.
pub open spec fn job_id(id: Seq<char>) -> bool {
    &&& id.len() == 36
    &&& id.take(4) == "sub_"@
    &&& forall|i: int| 4 <= i < id.len() ==> hex(#[trigger] id[i])
}

/// Why a job could not be created.
#[derive(Debug, Clone, Copy, PartialEq, Eq, Structural)]
pub enum StoreError {
    /// Another job has the id that was drawn.
    IdTaken,
}

impl SubtitleStore {
    /// Inserts a queued job and returns it.
    pub fn create_job(&mut self, new: NewJob) -> (r: Result<Job, StoreError>)
        requires
            old(self).wf(),
        ensures
            final(self).wf(),
            match r {
                Ok(job) => {
                    &&& job_id(job@.id)
                    &&& !has_job(old(self)@.records, job@.id)
                    &&& job@ == queued_job(new, job@.id, job@.created_at)
                    &&& final(self)@ == (StoreView {
                        records: old(self)@.records.push(RecordView { job: job@, cues: seq![] }),
                        ..old(self)@
                    })
                },
                Err(e) => {
                    &&& e == StoreError::IdTaken
                    &&& final(self)@ == old(self)@
                    &&& exists|id: Seq<char>|
                        job_id(id) && #[trigger] has_job(old(self)@.records, id)
                },
            },
    {
        let drawn = random_id();
        let id = text::concat("sub_", &drawn);
        proof {
            reveal_strlit("sub_");
            assert(id@.take(4) =~= "sub_"@);
            assert forall|i: int| 4 <= i < id@.len() implies hex(#[trigger] id@[i]) by {
                assert(id@[i] == drawn@[i - 4]);
            }
        }
        match self.insert_job(new, id, now_ms()) {
            Some(job) => Ok(job),
            None => Err(StoreError::IdTaken),
        }
    }

    /// Moves a job to a status, with the reason if there is one.
    pub fn set_status(&mut self, id: &str, status: Status, error: Option<&str>)
        requires
            old(self).wf(),
        ensures
            final(self).wf(),
            exists|now: i64|
                final(self)@ == #[trigger] moved(old(self)@, id@, status, opt_str(error), now),
    {
        let now: i64 = now_ms();
        self.set_status_at(id, status, error, now);
    }

    /// Moves a job that a worker owns to a status, if it is still active. A cancellation or
    /// deletion that wins the race is never overwritten by a late result.
    pub fn set_status_if_active(
        &mut self,
        id: &str,
        status: Status,
        error: Option<&str>,
    ) -> (r: bool)
        requires
            old(self).wf(),
        ensures
            final(self).wf(),
            r == active(old(self)@, id@),
            exists|now: i64|
                final(self)@ == #[trigger] moved_if_active(old(self)@, id@, status, opt_str(error), now),
    {
        let now: i64 = now_ms();
        self.set_status_if_active_at(id, status, error, now)
    }

    /// Cancels a job, if no worker has committed an outcome yet.
    pub fn cancel_if_active(&mut self, id: &str, reason: &str) -> (r: bool)
        requires
            old(self).wf(),
        ensures
            final(self).wf(),
            r == active(old(self)@, id@),
            exists|now: i64|
                final(self)@ == #[trigger] moved_if_active(
                    old(self)@,
                    id@,
                    Status::Canceled,
                    Some(reason@),
                    now,
                ),
    {
        let now: i64 = now_ms();
        self.cancel_if_active_at(id, reason, now)
    }

    /// Commits completion, if the job is still active. Output may be published only when
    /// this succeeds.
    pub fn complete_if_active(&mut self, id: &str) -> (r: bool)
        requires
            old(self).wf(),
        ensures
            final(self).wf(),
            r == active(old(self)@, id@),
            exists|now: i64|
                final(self)@ == #[trigger] completed(old(self)@, id@, now),
    {
        let now: i64 = now_ms();
        self.complete_if_active_at(id, now)
    }

    /// Records progress, if the job is still active.
    pub fn set_progress(&mut self, id: &str, progress: u64, stage: &str, duration_ms: Option<u64>)
        requires
            old(self).wf(),
        ensures
            final(self).wf(),
            exists|now: i64|
                final(self)@ == #[trigger] progressed(old(self)@, id@, progress, stage@, duration_ms, now),
    {
        let now: i64 = now_ms();
        self.set_progress_at(id, progress, stage, duration_ms, now);
    }

    /// Stores the finished cues and the counts that follow from them, if the job is still
    /// active.
    pub fn set_cues(&mut self, id: &str, list: &[Cue])
        requires
            old(self).wf(),
        ensures
            final(self).wf(),
            exists|now: i64|
                final(self)@ == #[trigger] cues_stored(old(self)@, id@, cues::views(list@), now),
    {
        let now: i64 = now_ms();
        self.set_cues_at(id, list, now);
    }

    /// Records where the file was written.
    pub fn set_output_path(&mut self, id: &str, path: Option<&str>)
        requires
            old(self).wf(),
        ensures
            final(self).wf(),
            exists|now: i64|
                final(self)@ == #[trigger] output_stored(old(self)@, id@, opt_str(path), now),
    {
        let now: i64 = now_ms();
        self.set_output_path_at(id, path, now);
    }

    /// Changes how a finished job is rendered, so that another format or layout costs no
    /// model call.
    pub fn set_render_options(&mut self, id: &str, format: Format, layout: Layout)
        requires
            old(self).wf(),
        ensures
            final(self).wf(),
            exists|now: i64|
                final(self)@ == #[trigger] render_stored(old(self)@, id@, format, layout, now),
    {
        let now: i64 = now_ms();
        self.set_render_options_at(id, format, layout, now);
    }

    /// Puts a finished job back into the queue, clearing its outcome.
    pub fn requeue(&mut self, id: &str)
        requires
            old(self).wf(),
        ensures
            final(self).wf(),
            exists|now: i64|
                final(self)@ == #[trigger] requeued(old(self)@, id@, now),
    {
        let now: i64 = now_ms();
        self.requeue_at(id, now);
    }

    /// Cancels what claims to be running at boot, and says how many jobs that were.
    pub fn reset_interrupted(&mut self) -> (r: usize)
        requires
            old(self).wf(),
        ensures
            final(self).wf(),
            r == running_count(old(self)@.records),
            exists|now: i64| final(self)@ == #[trigger] restarted(old(self)@, now),
    {
        let now: i64 = now_ms();
        self.reset_interrupted_at(now)
    }
}

/// A job that is finished, or that was deleted, is not touched by anything that a worker
/// does: whatever the change, the store stays as it was.
pub proof fn late_results_are_rejected(
    s: StoreView,
    id: Seq<char>,
    f: spec_fn(RecordView) -> RecordView,
)
    requires
        !active(s, id),
    ensures
        changed_if_active(s, id, f) == s,
{
    let after = changed_if_active(s, id, f);
    assert forall|i: int| 0 <= i < s.records.len() implies after.records[i] == s.records[i] by {
        if s.records[i].job.id == id {
            assert(s.records[i].job.status.over());
        }
    }
    assert(after.records =~= s.records);
}

/// Changing one job leaves every other job as it was.
pub proof fn other_jobs_are_untouched(
    s: StoreView,
    id: Seq<char>,
    f: spec_fn(RecordView) -> RecordView,
    i: int,
)
    requires
        0 <= i < s.records.len(),
        s.records[i].job.id != id,
    ensures
        changed(s, id, f).records[i] == s.records[i],
        changed_if_active(s, id, f).records[i] == s.records[i],
        changed(s, id, f).settings == s.settings,
        changed_if_active(s, id, f).settings == s.settings,
{
}

/// Once a job has its finishing stamp, no later status moves it, and a job that reaches a
/// finished status always has one.
pub proof fn the_stamp_does_not_move(
    r: RecordView,
    first: Status,
    then: Status,
    e1: Option<Seq<char>>,
    e2: Option<Seq<char>>,
    t1: i64,
    t2: i64,
)
    requires
        first.over(),
    ensures
        with_status(r, first, e1, t1).job.completed_at is Some,
        with_status(with_status(r, first, e1, t1), then, e2, t2).job.completed_at == with_status(
            r,
            first,
            e1,
            t1,
        ).job.completed_at,
        with_completion(with_status(r, first, e1, t1), t2).job.completed_at == with_status(
            r,
            first,
            e1,
            t1,
        ).job.completed_at,
{
}

/// Progress stays within bounds, and a duration that is known is not forgotten.
pub proof fn progress_is_bounded_and_duration_sticks(
    r: RecordView,
    progress: u64,
    stage: Seq<char>,
    duration: Option<u64>,
    now: i64,
)
    ensures
        with_progress(r, progress, stage, duration, now).job.progress <= FULL,
        progress <= FULL ==> with_progress(r, progress, stage, duration, now).job.progress
            == progress,
        r.job.duration_ms is Some ==> with_progress(
            r,
            progress,
            stage,
            duration,
            now,
        ).job.duration_ms is Some,
        duration is None ==> with_progress(r, progress, stage, duration, now).job.duration_ms
            == r.job.duration_ms,
{
}

/// Rendering in another way touches neither the cues nor the outcome of a job.
pub proof fn rendering_options_keep_the_cues(
    r: RecordView,
    format: Format,
    layout: Layout,
    now: i64,
)
    ensures
        with_render(r, format, layout, now).cues == r.cues,
        with_render(r, format, layout, now).job.status == r.job.status,
        with_render(r, format, layout, now).job.cue_count == r.job.cue_count,
{
}

/// A requeued job is like new but for its id, its source and when it was created: no cues, no
/// error, no finishing stamp.
pub proof fn requeueing_clears_the_outcome(r: RecordView, now: i64)
    ensures
        with_requeue(r, now).job.status == Status::Queued,
        with_requeue(r, now).job.progress == 0,
        with_requeue(r, now).job.error is None,
        with_requeue(r, now).job.completed_at is None,
        with_requeue(r, now).job.cue_count == 0,
        with_requeue(r, now).job.translated_count == 0,
        with_requeue(r, now).cues.len() == 0,
        with_requeue(r, now).job.id == r.job.id,
        with_requeue(r, now).job.created_at == r.job.created_at,
{
}

proof fn lemma_without_gone(records: Seq<RecordView>, id: Seq<char>)
    ensures
        forall|i: int|
            0 <= i < without(records, id).len() ==> (#[trigger] without(records, id)[i]).job.id
                != id,
    decreases records.len(),
{
    if records.len() > 0 {
        lemma_without_gone(records.drop_last(), id);
    }
}

/// A deleted job is gone, and deleting it again changes nothing.
pub proof fn deleting_is_idempotent(records: Seq<RecordView>, id: Seq<char>)
    ensures
        !has_job(without(records, id), id),
        without(without(records, id), id) == without(records, id),
{
    lemma_without_gone(records, id);
    lemma_without_none(without(records, id), id);
}

/// After a restart nothing claims to be running, and what was queued or finished is as it
/// was.
pub proof fn a_restart_cancels_only_what_was_running(s: StoreView, now: i64)
    ensures
        forall|i: int|
            #![trigger restarted(s, now).records[i]]
            0 <= i < s.records.len() ==> {
                let r = restarted(s, now).records[i];
                &&& !running(r.job.status)
                &&& !running(s.records[i].job.status) ==> r == s.records[i]
                &&& running(s.records[i].job.status) ==> r.job.status == Status::Canceled
                    && r.job.error is Some
            },
        restarted(restarted(s, now), now) == restarted(s, now),
{
    let once = restarted(s, now);
    assert(restarted(once, now).records =~= once.records);
}

/// The worker is given the oldest job that waits, and none exactly when none waits.
pub proof fn the_oldest_waiting_job_is_next(records: Seq<RecordView>)
    ensures
        match next_in_line(records) {
            Some(j) => {
                &&& j.status == Status::Queued
                &&& exists|i: int| 0 <= i < records.len() && (#[trigger] records[i]).job == j
                &&& forall|i: int|
                    0 <= i < records.len() && (#[trigger] records[i]).job.status == Status::Queued
                        ==> j.created_at <= records[i].job.created_at
            },
            None => forall|i: int|
                0 <= i < records.len() ==> (#[trigger] records[i]).job.status != Status::Queued,
        },
    decreases records.len(),
{
    if records.len() > 0 {
        let front = records.drop_last();
        let n = records.len() - 1;
        the_oldest_waiting_job_is_next(front);
        assert forall|i: int| 0 <= i < n implies front[i] == #[trigger] records[i] by {}
        match next_in_line(front) {
            Some(j) => {
                let k = choose|k: int| 0 <= k < front.len() && (#[trigger] front[k]).job == j;
                assert(records[k].job == j);
                assert(records[n].job == records.last().job);
            },
            None => {
                assert(records[n].job == records.last().job);
            },
        }
    }
}

proof fn lemma_by_age(records: Seq<RecordView>)
    ensures
        by_age(records).len() == records.len(),
        by_age(records).to_multiset() == jobs_of(records).to_multiset(),
        forall|i: int, j: int|
            0 <= i < j < by_age(records).len() ==> (#[trigger] by_age(records)[i]).created_at <= (
            #[trigger] by_age(records)[j]).created_at,
{
    order::lemma_sorted(jobs_of(records), older());
    let all = by_age(records);
    assert forall|i: int, j: int| 0 <= i < j < all.len() implies (#[trigger] all[i]).created_at <= (
    #[trigger] all[j]).created_at by {
        assert(!older()(all[j], all[i]));
    }
}

/// The jobs that the list leaves out.
pub open spec fn left_out(records: Seq<RecordView>, limit: nat) -> Seq<JobView> {
    let all = by_age(records).reverse();
    if limit < all.len() {
        all.skip(limit as int)
    } else {
        seq![]
    }
}

/// The list has the newest jobs first, as many as there are up to the limit. With those that it
/// leaves out it is all of them, and none of those is newer than any that it shows.
pub proof fn the_list_is_newest_first(records: Seq<RecordView>, limit: nat)
    ensures
        newest(records, limit).len() == if limit < records.len() {
            limit
        } else {
            records.len()
        },
        (newest(records, limit) + left_out(records, limit)).to_multiset() == jobs_of(
            records,
        ).to_multiset(),
        forall|i: int, j: int|
            0 <= i < j < newest(records, limit).len() ==> (#[trigger] newest(
                records,
                limit,
            )[i]).created_at >= (#[trigger] newest(records, limit)[j]).created_at,
        forall|i: int, j: int|
            0 <= i < newest(records, limit).len() && 0 <= j < left_out(records, limit).len() ==> (
            #[trigger] newest(records, limit)[i]).created_at >= (#[trigger] left_out(
                records,
                limit,
            )[j]).created_at,
{
    lemma_by_age(records);
    let n = records.len() as int;
    let all = by_age(records);
    let list = newest(records, limit);
    let rest = left_out(records, limit);
    assert forall|i: int, j: int| 0 <= i < j < list.len() implies (#[trigger] list[i]).created_at
        >= (#[trigger] list[j]).created_at by {
        assert(list[i] == all[n - 1 - i]);
        assert(list[j] == all[n - 1 - j]);
    }
    assert forall|i: int, j: int| 0 <= i < list.len() && 0 <= j < rest.len() implies (
    #[trigger] list[i]).created_at >= (#[trigger] rest[j]).created_at by {
        assert(list[i] == all[n - 1 - i]);
        assert(rest[j] == all[n - 1 - (list.len() + j)]);
    }
    assert(list + rest =~= all.reverse());
    lemma_reverse_multiset(all);
}

proof fn lemma_reverse_multiset(s: Seq<JobView>)
    ensures
        s.reverse().to_multiset() == s.to_multiset(),
    decreases s.len(),
{
    broadcast use vstd::seq_lib::group_to_multiset_ensures;

    if s.len() == 0 {
        assert(s.reverse() =~= s);
    } else {
        let front = s.drop_last();
        lemma_reverse_multiset(front);
        let one = seq![s.last()];
        assert(s.reverse() =~= one + front.reverse());
        assert(front.push(s.last()) =~= s);
        vstd::seq_lib::lemma_multiset_commutative(one, front.reverse());
        vstd::seq_lib::lemma_multiset_commutative(front, one);
        assert(front + one =~= s);
        assert(s.reverse().to_multiset() =~= s.to_multiset());
    }
}

/// A change to a job that is not finished is what is found afterwards.
pub proof fn lemma_found_changed(
    s: StoreView,
    id: Seq<char>,
    f: spec_fn(RecordView) -> RecordView,
)
    requires
        ids_unique(s.records),
        active(s, id),
        forall|r: RecordView| (#[trigger] f(r)).job.id == r.job.id,
    ensures
        ids_unique(changed_if_active(s, id, f).records),
        found(s.records, id) is Some,
        !found(s.records, id)->0.job.status.over(),
        found(changed_if_active(s, id, f).records, id) == Some(f(found(s.records, id)->0)),
        !f(found(s.records, id)->0).job.status.over() ==> active(changed_if_active(s, id, f), id),
{
    let i = choose|i: int|
        0 <= i < s.records.len() && (#[trigger] s.records[i]).job.id == id
            && !s.records[i].job.status.over();
    let after = changed_if_active(s, id, f).records;
    assert forall|a: int, b: int| 0 <= a < b < after.len() implies (#[trigger] after[a]).job.id != (
    #[trigger] after[b]).job.id by {
        assert(s.records[a].job.id != s.records[b].job.id);
    }
    assert(after[i] == f(s.records[i]));
    lemma_found(s.records, i);
    lemma_found(after, i);
}

proof fn lemma_translated(cues: Seq<CueView>)
    ensures
        translated(cues) <= cues.len(),
    decreases cues.len(),
{
    if cues.len() > 0 {
        lemma_translated(cues.drop_last());
    }
}

/// The cues that are stored for a job that is not finished are the ones that are read back, and
/// its counts are theirs: a job never claims more translated lines than it has lines.
pub proof fn cues_read_back(s: StoreView, id: Seq<char>, cues: Seq<CueView>, now: i64)
    requires
        ids_unique(s.records),
        active(s, id),
        cues.len() <= u64::MAX,
    ensures
        found(cues_stored(s, id, cues, now).records, id) matches Some(r) && r.cues == cues
            && r.job.cue_count == cues.len() && r.job.translated_count == translated(cues)
            && r.job.translated_count <= r.job.cue_count,
{
    lemma_found_changed(s, id, |r: RecordView| with_cues(r, cues, now));
    lemma_translated(cues);
}

/// A job that was added is found under its id, and so is every job that was there before.
pub proof fn a_new_job_is_found(records: Seq<RecordView>, new: RecordView, i: int)
    requires
        ids_unique(records),
        !has_job(records, new.job.id),
        0 <= i < records.len(),
    ensures
        found(records.push(new), new.job.id) == Some(new),
        found(records.push(new), records[i].job.id) == Some(records[i]),
{
    let after = records.push(new);
    assert forall|a: int, b: int| 0 <= a < b < after.len() implies (#[trigger] after[a]).job.id != (
    #[trigger] after[b]).job.id by {
        assert(after[a] == records[a]);
        if b < records.len() {
            assert(after[b] == records[b]);
        }
    }
    lemma_found(after, after.len() - 1);
    lemma_found(after, i);
}

/// A change reaches the job that it names and adds or removes none; one that asks for an active
/// job reaches it while it waits, is transcribed or is translated, and at no other time.
pub proof fn a_change_reaches_the_named_job(
    s: StoreView,
    id: Seq<char>,
    f: spec_fn(RecordView) -> RecordView,
    i: int,
)
    requires
        0 <= i < s.records.len(),
        s.records[i].job.id == id,
    ensures
        changed(s, id, f).records.len() == s.records.len(),
        changed_if_active(s, id, f).records.len() == s.records.len(),
        changed(s, id, f).records[i] == f(s.records[i]),
        match s.records[i].job.status {
            Status::Queued | Status::Transcribing | Status::Translating => changed_if_active(
                s,
                id,
                f,
            ).records[i] == f(s.records[i]) && active(s, id),
            Status::Completed | Status::Failed | Status::Canceled => changed_if_active(
                s,
                id,
                f,
            ).records[i] == s.records[i],
        },
{
}

/// Moving a job records the status, the reason and the moment. The first moment at which it was
/// completed, failed or canceled is kept as its finishing stamp. Nothing else moves: with those
/// four put back, the job is the one it was.
pub proof fn a_status_is_recorded(
    s: StoreView,
    id: Seq<char>,
    status: Status,
    error: Option<Seq<char>>,
    now: i64,
    i: int,
)
    requires
        0 <= i < s.records.len(),
        s.records[i].job.id == id,
    ensures
        ({
            let before = s.records[i].job;
            let after = moved(s, id, status, error, now).records[i].job;
            let finished = match status {
                Status::Completed | Status::Failed | Status::Canceled => true,
                Status::Queued | Status::Transcribing | Status::Translating => false,
            };
            &&& after.status == status
            &&& after.error == error
            &&& after.updated_at == now
            &&& before.completed_at is Some || !finished ==> after.completed_at
                == before.completed_at
            &&& before.completed_at is None && finished ==> after.completed_at == Some(now)
            &&& (JobView {
                status: before.status,
                error: before.error,
                updated_at: before.updated_at,
                completed_at: before.completed_at,
                ..after
            }) == before
        }),
        moved(s, id, status, error, now).records[i].cues == s.records[i].cues,
        match s.records[i].job.status {
            Status::Queued | Status::Transcribing | Status::Translating => moved_if_active(
                s,
                id,
                status,
                error,
                now,
            ).records[i] == moved(s, id, status, error, now).records[i],
            _ => moved_if_active(s, id, status, error, now).records[i] == s.records[i],
        },
{
}

/// A job that is active when its completion is committed is completed, full and without an
/// error, and keeps its cues and everything it was asked for; any other job is left alone.
pub proof fn a_completion_is_recorded(s: StoreView, id: Seq<char>, now: i64, i: int)
    requires
        0 <= i < s.records.len(),
        s.records[i].job.id == id,
    ensures
        ({
            let before = s.records[i].job;
            let after = completed(s, id, now).records[i].job;
            match before.status {
                Status::Queued | Status::Transcribing | Status::Translating => {
                    &&& after.status == Status::Completed
                    &&& after.progress == 1_000_000
                    &&& after.stage == "Done"@
                    &&& after.error is None
                    &&& after.updated_at == now
                    &&& before.completed_at is None ==> after.completed_at == Some(now)
                    &&& before.completed_at is Some ==> after.completed_at == before.completed_at
                    &&& (JobView {
                        status: before.status,
                        progress: before.progress,
                        stage: before.stage,
                        error: before.error,
                        updated_at: before.updated_at,
                        completed_at: before.completed_at,
                        ..after
                    }) == before
                },
                _ => after == before,
            }
        }),
        completed(s, id, now).records[i].cues == s.records[i].cues,
{
}

/// Progress of an active job is recorded, but never beyond a million millionths; a duration is
/// taken where one is given and kept where none is. A finished job is left alone.
pub proof fn progress_is_recorded(
    s: StoreView,
    id: Seq<char>,
    progress: u64,
    stage: Seq<char>,
    duration_ms: Option<u64>,
    now: i64,
    i: int,
)
    requires
        0 <= i < s.records.len(),
        s.records[i].job.id == id,
    ensures
        ({
            let before = s.records[i].job;
            let after = progressed(s, id, progress, stage, duration_ms, now).records[i].job;
            match before.status {
                Status::Queued | Status::Transcribing | Status::Translating => {
                    &&& progress <= 1_000_000 ==> after.progress == progress
                    &&& progress > 1_000_000 ==> after.progress == 1_000_000
                    &&& after.stage == stage
                    &&& duration_ms is Some ==> after.duration_ms == duration_ms
                    &&& duration_ms is None ==> after.duration_ms == before.duration_ms
                    &&& after.updated_at == now
                    &&& (JobView {
                        progress: before.progress,
                        stage: before.stage,
                        duration_ms: before.duration_ms,
                        updated_at: before.updated_at,
                        ..after
                    }) == before
                },
                _ => after == before,
            }
        }),
        progressed(s, id, progress, stage, duration_ms, now).records[i].cues == s.records[i].cues,
{
}

/// How many cues are translated is how many of them have a translation.
pub proof fn translations_are_counted(cues: Seq<CueView>)
    ensures
        translated(cues) == cues.filter(|c: CueView| c.translated is Some).len(),
    decreases cues.len(),
{
    reveal(Seq::filter);
    if cues.len() > 0 {
        translations_are_counted(cues.drop_last());
    }
}

/// The cues of an active job are stored as they are, with how many there are and how many of
/// them have a translation; a finished job keeps its own.
pub proof fn cues_are_recorded(
    s: StoreView,
    id: Seq<char>,
    cues: Seq<CueView>,
    now: i64,
    i: int,
)
    requires
        0 <= i < s.records.len(),
        s.records[i].job.id == id,
        cues.len() <= u64::MAX,
    ensures
        ({
            let before = s.records[i].job;
            let after = cues_stored(s, id, cues, now).records[i];
            match before.status {
                Status::Queued | Status::Transcribing | Status::Translating => {
                    &&& after.cues == cues
                    &&& after.job.cue_count == cues.len()
                    &&& after.job.translated_count == cues.filter(
                        |c: CueView| c.translated is Some,
                    ).len()
                    &&& after.job.updated_at == now
                    &&& (JobView {
                        cue_count: before.cue_count,
                        translated_count: before.translated_count,
                        updated_at: before.updated_at,
                        ..after.job
                    }) == before
                },
                _ => after == s.records[i],
            }
        }),
{
    translations_are_counted(cues);
    lemma_translated(cues);
}

/// Where a file was written, and how a job is to be rendered, is recorded whether the job is
/// finished or not, and changes nothing else of it.
pub proof fn what_a_finished_job_may_learn(
    s: StoreView,
    id: Seq<char>,
    path: Option<Seq<char>>,
    format: Format,
    layout: Layout,
    now: i64,
    i: int,
)
    requires
        0 <= i < s.records.len(),
        s.records[i].job.id == id,
    ensures
        ({
            let before = s.records[i].job;
            let after = output_stored(s, id, path, now).records[i].job;
            &&& after.output_path == path
            &&& after.updated_at == now
            &&& (JobView {
                output_path: before.output_path,
                updated_at: before.updated_at,
                ..after
            }) == before
        }),
        ({
            let before = s.records[i].job;
            let after = render_stored(s, id, format, layout, now).records[i].job;
            &&& after.format == format
            &&& after.layout == layout
            &&& after.updated_at == now
            &&& (JobView {
                format: before.format,
                layout: before.layout,
                updated_at: before.updated_at,
                ..after
            }) == before
        }),
        output_stored(s, id, path, now).records[i].cues == s.records[i].cues,
        render_stored(s, id, format, layout, now).records[i].cues == s.records[i].cues,
{
}

/// A job that is put back into the queue is the one that was created, but for the moment of the
/// change and for what was learned of its source: the id, what was asked for, when it came,
/// the duration and the place of an earlier file are kept.
pub proof fn a_requeued_job_is_as_created(
    s: StoreView,
    new: NewJob,
    id: Seq<char>,
    now: i64,
    i: int,
)
    requires
        0 <= i < s.records.len(),
        s.records[i].job.id == id,
        new.source_path@ == s.records[i].job.source_path,
        new.source_name@ == s.records[i].job.source_name,
        new.target_language@ == s.records[i].job.target_language,
        new.format == s.records[i].job.format,
        new.layout == s.records[i].job.layout,
        new.engine@ == s.records[i].job.engine,
        new.model@ == s.records[i].job.model,
    ensures
        requeued(s, id, now).records[i].cues.len() == 0,
        requeued(s, id, now).records[i].job == (JobView {
            duration_ms: s.records[i].job.duration_ms,
            output_path: s.records[i].job.output_path,
            updated_at: now,
            ..queued_job(new, id, s.records[i].job.created_at)
        }),
        ({
            let job = queued_job(new, id, now);
            &&& job.id == id
            &&& job.source_path == new.source_path@
            &&& job.source_name == new.source_name@
            &&& job.target_language == new.target_language@
            &&& job.format == new.format
            &&& job.layout == new.layout
            &&& job.engine == new.engine@
            &&& job.model == new.model@
            &&& job.status == Status::Queued
            &&& job.stage == "Queued"@
            &&& job.progress == 0 && job.cue_count == 0 && job.translated_count == 0
            &&& job.created_at == now && job.updated_at == now
            &&& job.completed_at is None && job.error is None
            &&& job.duration_ms is None && job.output_path is None
        }),
{
}

/// Deleting a job leaves exactly the others, in their order.
pub proof fn deleting_leaves_the_others(records: Seq<RecordView>, id: Seq<char>)
    ensures
        without(records, id) == records.filter(|r: RecordView| r.job.id != id),
    decreases records.len(),
{
    reveal(Seq::filter);
    if records.len() > 0 {
        deleting_leaves_the_others(records.drop_last(), id);
    }
}

/// A restart cancels the jobs that were being transcribed or translated, says why, and counts
/// exactly those.
pub proof fn a_restart_counts_what_it_cancels(s: StoreView, now: i64, i: int)
    requires
        0 <= i < s.records.len(),
    ensures
        running_count(s.records) == s.records.filter(
            |r: RecordView|
                r.job.status == Status::Transcribing || r.job.status == Status::Translating,
        ).len(),
        restarted(s, now).records.len() == s.records.len(),
        restarted(s, now).settings == s.settings,
        ({
            let before = s.records[i].job;
            let after = restarted(s, now).records[i].job;
            match before.status {
                Status::Transcribing | Status::Translating => {
                    &&& after.status == Status::Canceled
                    &&& after.stage == "Interrupted by a restart"@
                    &&& after.error == Some("The node restarted while this job was running."@)
                    &&& after.updated_at == now
                    &&& (JobView {
                        status: before.status,
                        stage: before.stage,
                        error: before.error,
                        updated_at: before.updated_at,
                        ..after
                    }) == before
                },
                _ => after == before,
            }
        }),
        restarted(s, now).records[i].cues == s.records[i].cues,
{
    lemma_running_count(s.records);
}

proof fn lemma_running_count(records: Seq<RecordView>)
    ensures
        running_count(records) == records.filter(
            |r: RecordView|
                r.job.status == Status::Transcribing || r.job.status == Status::Translating,
        ).len(),
    decreases records.len(),
{
    reveal(Seq::filter);
    if records.len() > 0 {
        lemma_running_count(records.drop_last());
    }
}

/// The worker is given a waiting job that no other waiting job is older than, and that came
/// before every other waiting job of the same moment.
pub proof fn the_first_of_the_oldest_is_next(records: Seq<RecordView>, i: int)
    requires
        0 <= i < records.len(),
        records[i].job.status == Status::Queued,
        forall|j: int|
            0 <= j < records.len() && (#[trigger] records[j]).job.status == Status::Queued
                ==> records[i].job.created_at <= records[j].job.created_at,
        forall|j: int|
            0 <= j < i && (#[trigger] records[j]).job.status == Status::Queued
                ==> records[i].job.created_at < records[j].job.created_at,
    ensures
        next_in_line(records) == Some(records[i].job),
    decreases records.len(),
{
    let front = records.drop_last();
    let n = records.len() - 1;
    assert forall|j: int| 0 <= j < n implies front[j] == #[trigger] records[j] by {}
    if i < n {
        the_first_of_the_oldest_is_next(front, i);
        assert(records[n] == records.last());
    } else {
        the_oldest_waiting_job_is_next(front);
        match next_in_line(front) {
            Some(j) => {
                let k = choose|k: int| 0 <= k < front.len() && (#[trigger] front[k]).job == j;
                assert(records[k].job == j);
            },
            None => {},
        }
    }
}

/// What is stored of a job is what is read of it: a row that holds the words and counts of a
/// job gives that job back.
pub proof fn a_stored_job_reads_back(job: JobView, row: StoredRow)
    requires
        row.id@ == job.id,
        row.source_path@ == job.source_path,
        row.source_name@ == job.source_name,
        row.target_language@ == job.target_language,
        row.format@ == match job.format {
            Format::Srt => "srt"@,
            Format::Vtt => "vtt"@,
        },
        row.layout@ == match job.layout {
            Layout::Translated => "translated"@,
            Layout::Source => "source"@,
            Layout::Bilingual => "bilingual"@,
        },
        row.status@ == match job.status {
            Status::Queued => "queued"@,
            Status::Transcribing => "transcribing"@,
            Status::Translating => "translating"@,
            Status::Completed => "completed"@,
            Status::Failed => "failed"@,
            Status::Canceled => "canceled"@,
        },
        row.progress == job.progress,
        row.stage@ == job.stage,
        job.error is Some <==> row.error is Some,
        job.error is Some ==> row.error->0@ == job.error->0,
        job.duration_ms is Some <==> row.duration_ms is Some,
        job.duration_ms is Some ==> row.duration_ms->0 == job.duration_ms->0,
        row.cue_count == job.cue_count,
        row.translated_count == job.translated_count,
        row.engine@ == job.engine,
        row.model@ == job.model,
        job.output_path is Some <==> row.output_path is Some,
        job.output_path is Some ==> row.output_path->0@ == job.output_path->0,
        row.created_at == job.created_at,
        row.updated_at == job.updated_at,
        row.completed_at == job.completed_at,
    ensures
        stored_job(row) == job,
{
    status_words_read_back(job.status);
    layout_words_read_back(job.layout);
    cues::format_extension_parses_back(job.format);
}

/// A stored row that cannot be right is still read: a count below zero is none, and a word that
/// stands for nothing is what a new job would have.
pub proof fn a_wrong_row_is_still_read(row: StoredRow)
    ensures
        row.cue_count < 0 ==> stored_job(row).cue_count == 0,
        row.translated_count < 0 ==> stored_job(row).translated_count == 0,
        row.duration_ms is Some && row.duration_ms->0 < 0 ==> stored_job(row).duration_ms == Some(
            0u64,
        ),
        stored_job(row).format == Format::Vtt ==> cues::format_named(row.format@) == Some(
            Format::Vtt,
        ),
        row.layout@ != "source"@ && row.layout@ != "bilingual"@ ==> stored_job(row).layout
            == Layout::Translated,
        row.status@ != "transcribing"@ && row.status@ != "translating"@ && row.status@
            != "completed"@ && row.status@ != "failed"@ && row.status@ != "canceled"@ ==> stored_job(
            row,
        ).status == Status::Queued,
{
}

/// A node that saved no settings translates into English, writes translated SubRip next to the
/// source, and listens with `whisper` and the gateway's own model.
pub proof fn the_settings_of_a_new_node()
    ensures
        default_settings().target_language == "en"@,
        default_settings().format == Format::Srt,
        default_settings().layout == Layout::Translated,
        default_settings().engine == "whisper"@,
        default_settings().model.len() == 0,
        default_settings().write_beside_source,
{
}

/// The id of a job is `sub_` and 32 lower-case hexadecimal digits.
pub proof fn ids_have_their_shape(id: Seq<char>, i: int)
    requires
        job_id(id),
    ensures
        id.len() == 36,
        id[0] == 's' && id[1] == 'u' && id[2] == 'b' && id[3] == '_',
        4 <= i < 36 ==> seq![
            '0',
            '1',
            '2',
            '3',
            '4',
            '5',
            '6',
            '7',
            '8',
            '9',
            'a',
            'b',
            'c',
            'd',
            'e',
            'f',
        ].contains(id[i]),
{
    reveal_strlit("sub_");
    assert(id.take(4)[0] == id[0] && id.take(4)[1] == id[1]);
    assert(id.take(4)[2] == id[2] && id.take(4)[3] == id[3]);
    let all = seq![
        '0',
        '1',
        '2',
        '3',
        '4',
        '5',
        '6',
        '7',
        '8',
        '9',
        'a',
        'b',
        'c',
        'd',
        'e',
        'f',
    ];
    if 4 <= i < 36 {
        let c = id[i];
        assert(hex(c));
        if c <= '9' {
            assert(all[c as int - '0' as int] == c);
        } else {
            assert(all[c as int - 'a' as int + 10] == c);
        }
    }
}

} // verus!
