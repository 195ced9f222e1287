//! What the requests of the companion come to.
//!
//! Refusals are told apart on purpose: a file that cannot be read, a language that is not
//! known and a file that has moved are three different things to say to the user.

use crate::cues;
use crate::cues::Cue;
use crate::cues::Format;
use crate::cues::Layout;
use crate::languages;
use crate::library;
use crate::library::PathError;
use crate::library::PathView;
use crate::library::SourceProbe;
use crate::paths;
use crate::store;
use crate::store::Job;
use crate::store::JobView;
use crate::store::NewJob;
use crate::store::RecordView;
use crate::store::Settings;
use crate::store::SettingsView;
use crate::store::Status;
use crate::store::StoreError;
use crate::store::StoreView;
use crate::store::SubtitleStore;
use crate::text;
use vstd::prelude::*;

verus! {

/// How many jobs the list shows.
pub const LIST_LIMIT: usize = 200;

/// A request that is not granted: the status it is answered with, and the reason.
#[derive(Debug, Clone, PartialEq, Eq)]
pub struct Refusal {
    pub status: u16,
    pub message: String,
}

/// A refusal as a mathematical value.
pub type RefusalView = (u16, Seq<char>);

impl View for Refusal {
    type V = (u16, Seq<char>);

    open spec fn view(&self) -> (u16, Seq<char>) {
        (self.status, self.message@)
    }
}

/// The refusal for a path that did not pass the guard.
pub open spec fn path_refusal(e: PathError) -> RefusalView {
    match e {
        PathError::OutsideRoots => (403, e.text()),
        PathError::Missing => (404, e.text()),
        PathError::NotMedia => (415, e.text()),
    }
}

/// The refusal for a path that did not pass the guard.
pub fn path_error(e: &PathError) -> (r: Refusal)
    ensures
        r@ == path_refusal(*e),
{
    let status: u16 = match e {
        PathError::OutsideRoots => 403,
        PathError::Missing => 404,
        PathError::NotMedia => 415,
    };
    Refusal { status, message: e.message().to_string() }
}

/// A refusal that names what was not understood.
pub open spec fn unknown(what: Seq<char>, value: Seq<char>) -> RefusalView {
    (400, "unknown "@ + what + " `"@ + value + "`"@)
}

fn unknown_of(what: &str, value: &str) -> (r: Refusal)
    ensures
        r@ == unknown(what@, value@),
{
    let mut out = text::chars_of("unknown ");
    text::append_str(&mut out, what);
    text::append_str(&mut out, " `");
    text::append_str(&mut out, value);
    text::append_str(&mut out, "`");
    Refusal { status: 400, message: text::string_of(out.as_slice()) }
}

/// The refusal for a job that is not there.
pub open spec fn no_such_job() -> RefusalView {
    (404, "no such job"@)
}

fn not_found() -> (r: Refusal)
    ensures
        r@ == no_such_job(),
{
    Refusal { status: 404, message: "no such job".to_string() }
}

/// The layout that a name stands for, whatever its case and the whitespace around it.
pub open spec fn layout_named(value: Seq<char>) -> Option<Layout> {
    let name = text::ascii_lower(text::trim(value));
    if name == "translated"@ || name == "target"@ {
        Some(Layout::Translated)
    } else if name == "source"@ || name == "original"@ {
        Some(Layout::Source)
    } else if name == "bilingual"@ || name == "both"@ || name == "dual"@ {
        Some(Layout::Bilingual)
    } else {
        None
    }
}

/// Reads the name of a layout.
pub fn parse_layout(value: &str) -> (r: Option<Layout>)
    ensures
        r == layout_named(value@),
{
    let name = text::ascii_lower_of(text::trimmed(value).as_slice());
    let n = name.as_slice();
    if text::spells(n, "translated") || text::spells(n, "target") {
        Some(Layout::Translated)
    } else if text::spells(n, "source") || text::spells(n, "original") {
        Some(Layout::Source)
    } else if text::spells(n, "bilingual") || text::spells(n, "both") || text::spells(n, "dual") {
        Some(Layout::Bilingual)
    } else {
        None
    }
}

/// The format that was asked for, or the one there is.
pub open spec fn pick_format(asked: Option<Seq<char>>, current: Format) -> Result<
    Format,
    RefusalView,
> {
    match asked {
        None => Ok(current),
        Some(f) => match cues::format_named(f) {
            Some(format) => Ok(format),
            None => Err(unknown("subtitle format"@, f)),
        },
    }
}

/// The layout that was asked for, or the one there is.
pub open spec fn pick_layout(asked: Option<Seq<char>>, current: Layout) -> Result<
    Layout,
    RefusalView,
> {
    match asked {
        None => Ok(current),
        Some(l) => match layout_named(l) {
            Some(layout) => Ok(layout),
            None => Err(unknown("layout"@, l)),
        },
    }
}

/// The code of the language that was asked for, or of the one there is.
pub open spec fn pick_language(asked: Option<Seq<char>>, current: Seq<char>) -> Result<
    Seq<char>,
    RefusalView,
> {
    let code = match asked {
        Some(c) => c,
        None => current,
    };
    match languages::lookup(code) {
        Some(l) => Ok(l.code@),
        None => Err(unknown("target language"@, code)),
    }
}

fn pick_format_of(asked: &Option<String>, current: Format) -> (r: Result<Format, Refusal>)
    ensures
        match (r, pick_format(text::opt(*asked), current)) {
            (Ok(a), Ok(b)) => a == b,
            (Err(a), Err(b)) => a@ == b,
            _ => false,
        },
{
    match asked {
        None => Ok(current),
        Some(f) => match Format::parse(f) {
            Some(format) => Ok(format),
            None => Err(unknown_of("subtitle format", f)),
        },
    }
}

fn pick_layout_of(asked: &Option<String>, current: Layout) -> (r: Result<Layout, Refusal>)
    ensures
        match (r, pick_layout(text::opt(*asked), current)) {
            (Ok(a), Ok(b)) => a == b,
            (Err(a), Err(b)) => a@ == b,
            _ => false,
        },
{
    match asked {
        None => Ok(current),
        Some(l) => match parse_layout(l) {
            Some(layout) => Ok(layout),
            None => Err(unknown_of("layout", l)),
        },
    }
}

fn pick_language_of(asked: &Option<String>, current: &str) -> (r: Result<String, Refusal>)
    ensures
        match (r, pick_language(text::opt(*asked), current@)) {
            (Ok(a), Ok(b)) => a@ == b,
            (Err(a), Err(b)) => a@ == b,
            _ => false,
        },
{
    let code: &str = match asked {
        Some(c) => c.as_str(),
        None => current,
    };
    match languages::find(code) {
        Some(l) => Ok(l.code.to_string()),
        None => Err(unknown_of("target language", code)),
    }
}

/// A change to the settings: what is left out keeps its value.
#[derive(Debug, Clone, PartialEq, Eq)]
pub struct SettingsInput {
    pub target_language: Option<String>,
    pub format: Option<String>,
    pub layout: Option<String>,
    pub engine: Option<String>,
    pub model: Option<String>,
    pub write_beside_source: Option<bool>,
}

/// The settings after a change, or why it is refused. A blank engine changes nothing; a blank
/// model means the default one.
pub open spec fn merged(s: SettingsView, input: SettingsInput) -> Result<SettingsView, RefusalView> {
    let language = match input.target_language {
        Some(c) => pick_language(Some(c@), s.target_language),
        None => Ok(s.target_language),
    };
    let format = pick_format(text::opt(input.format), s.format);
    let layout = pick_layout(text::opt(input.layout), s.layout);
    match (language, format, layout) {
        (Err(e), _, _) => Err(e),
        (Ok(_), Err(e), _) => Err(e),
        (Ok(_), Ok(_), Err(e)) => Err(e),
        (Ok(language), Ok(format), Ok(layout)) => Ok(
            SettingsView {
                target_language: language,
                format,
                layout,
                engine: match text::given(text::opt(input.engine)) {
                    Some(e) => e,
                    None => s.engine,
                },
                model: match input.model {
                    Some(m) => text::trim(m@),
                    None => s.model,
                },
                write_beside_source: match input.write_beside_source {
                    Some(b) => b,
                    None => s.write_beside_source,
                },
            },
        ),
    }
}

/// The settings of a store: the defaults until some are saved.
pub open spec fn current_settings(s: StoreView) -> SettingsView {
    match s.settings {
        Some(t) => t,
        None => store::default_settings(),
    }
}

/// Changes the settings.
pub fn put_settings(jobs: &mut SubtitleStore, input: &SettingsInput) -> (r: Result<
    Settings,
    Refusal,
>)
    requires
        old(jobs).wf(),
    ensures
        final(jobs).wf(),
        match (r, merged(current_settings(old(jobs)@), *input)) {
            (Ok(t), Ok(m)) => t@ == m && final(jobs)@ == (StoreView {
                settings: Some(m),
                ..old(jobs)@
            }),
            (Err(e), Err(f)) => e@ == f && final(jobs)@ == old(jobs)@,
            _ => false,
        },
{
    let current = jobs.settings();
    let target_language = match &input.target_language {
        Some(_) => match pick_language_of(&input.target_language, &current.target_language) {
            Ok(code) => code,
            Err(e) => return Err(e),
        },
        None => current.target_language.clone(),
    };
    let format = match pick_format_of(&input.format, current.format) {
        Ok(f) => f,
        Err(e) => return Err(e),
    };
    let layout = match pick_layout_of(&input.layout, current.layout) {
        Ok(l) => l,
        Err(e) => return Err(e),
    };
    let engine = match text::given_of(&input.engine) {
        Some(e) => e,
        None => current.engine.clone(),
    };
    let model = match &input.model {
        Some(m) => text::string_of(text::trimmed(m).as_slice()),
        None => current.model.clone(),
    };
    let write_beside_source = match input.write_beside_source {
        Some(b) => b,
        None => current.write_beside_source,
    };
    let settings = Settings {
        target_language,
        format,
        layout,
        engine,
        model,
        write_beside_source,
    };
    jobs.save_settings(&settings);
    Ok(settings)
}

/// A request for a new job: what is left out is filled in from the settings.
#[derive(Debug, Clone, PartialEq, Eq)]
pub struct CreateJobInput {
    pub source_path: String,
    pub target_language: Option<String>,
    pub format: Option<String>,
    pub layout: Option<String>,
    pub engine: Option<String>,
    pub model: Option<String>,
}

/// A new job as a mathematical value.
#[verifier::ext_equal]
pub struct NewJobView {
    pub source_path: Seq<char>,
    pub source_name: Seq<char>,
    pub target_language: Seq<char>,
    pub format: Format,
    pub layout: Layout,
    pub engine: Seq<char>,
    pub model: Seq<char>,
}

/// A new job as a mathematical value.
pub open spec fn new_job_view(n: NewJob) -> NewJobView {
    NewJobView {
        source_path: n.source_path@,
        source_name: n.source_name@,
        target_language: n.target_language@,
        format: n.format,
        layout: n.layout,
        engine: n.engine@,
        model: n.model@,
    }
}

/// The job that a request stands for, given what looking its source up found, or why it is
/// refused: for its source first, then for its language, its format and its layout.
pub open spec fn resolved(
    s: SettingsView,
    input: CreateJobInput,
    canonical: Option<PathView>,
    is_file: bool,
    roots: Seq<PathView>,
) -> Result<NewJobView, RefusalView> {
    let language = pick_language(text::opt(input.target_language), s.target_language);
    let format = pick_format(text::opt(input.format), s.format);
    let layout = pick_layout(text::opt(input.layout), s.layout);
    match library::guard(input.source_path@, canonical, is_file, roots) {
        Err(e) => Err(path_refusal(e)),
        Ok(source) => match (language, format, layout) {
            (Err(e), _, _) => Err(e),
            (Ok(_), Err(e), _) => Err(e),
            (Ok(_), Ok(_), Err(e)) => Err(e),
            (Ok(language), Ok(format), Ok(layout)) => Ok(
                NewJobView {
                    source_path: source.text,
                    source_name: match source.name {
                        Some(n) => n,
                        None => "video"@,
                    },
                    target_language: language,
                    format,
                    layout,
                    engine: match text::given(text::opt(input.engine)) {
                        Some(e) => e,
                        None => s.engine,
                    },
                    model: match text::given(text::opt(input.model)) {
                        Some(m) => m,
                        None => s.model,
                    },
                },
            ),
        },
    }
}

/// Resolves a request for a new job.
pub fn resolve_job(settings: &Settings, input: &CreateJobInput, probe: SourceProbe) -> (r: Result<
    NewJob,
    Refusal,
>)
    ensures
        match (
            r,
            resolved(
                settings@,
                *input,
                library::opt_path(probe.canonical),
                probe.is_file,
                library::path_views(probe.roots@),
            ),
        ) {
            (Ok(n), Ok(v)) => new_job_view(n) == v,
            (Err(e), Err(f)) => e@ == f,
            _ => false,
        },
{
    let source = match library::validate_source(&input.source_path, probe) {
        Ok(p) => p,
        Err(e) => return Err(path_error(&e)),
    };
    let target_language = match pick_language_of(
        &input.target_language,
        &settings.target_language,
    ) {
        Ok(code) => code,
        Err(e) => return Err(e),
    };
    let format = match pick_format_of(&input.format, settings.format) {
        Ok(f) => f,
        Err(e) => return Err(e),
    };
    let layout = match pick_layout_of(&input.layout, settings.layout) {
        Ok(l) => l,
        Err(e) => return Err(e),
    };
    let engine = match text::given_of(&input.engine) {
        Some(e) => e,
        None => settings.engine.clone(),
    };
    let model = match text::given_of(&input.model) {
        Some(m) => m,
        None => settings.model.clone(),
    };
    let source_name = match source.name {
        Some(n) => n,
        None => "video".to_string(),
    };
    Ok(
        NewJob {
            source_path: source.text,
            source_name,
            target_language,
            format,
            layout,
            engine,
            model,
        },
    )
}

/// The queued job of a request, with the id that was drawn for it and the time it was made.
pub open spec fn queued_from(n: NewJobView, id: Seq<char>, at: i64) -> JobView {
    JobView {
        id,
        source_path: n.source_path,
        source_name: n.source_name,
        target_language: n.target_language,
        format: n.format,
        layout: n.layout,
        status: Status::Queued,
        progress: 0,
        stage: "Queued"@,
        error: None,
        duration_ms: None,
        cue_count: 0,
        translated_count: 0,
        engine: n.engine,
        model: n.model,
        output_path: None,
        created_at: at,
        updated_at: at,
        completed_at: None,
    }
}

/// Queues a job, given what looking its source up found.
pub fn create_job(jobs: &mut SubtitleStore, input: &CreateJobInput, probe: SourceProbe) -> (r:
    Result<Job, Refusal>)
    requires
        old(jobs).wf(),
    ensures
        final(jobs).wf(),
        match (
            r,
            resolved(
                current_settings(old(jobs)@),
                *input,
                library::opt_path(probe.canonical),
                probe.is_file,
                library::path_views(probe.roots@),
            ),
        ) {
            (Ok(job), Ok(n)) => {
                &&& job@ == queued_from(n, job@.id, job@.created_at)
                &&& store::job_id(job@.id)
                &&& !store::has_job(old(jobs)@.records, job@.id)
                &&& final(jobs)@ == (StoreView {
                    records: old(jobs)@.records.push(RecordView { job: job@, cues: seq![] }),
                    ..old(jobs)@
                })
            },
            (Err(e), Err(f)) => e@ == f && final(jobs)@ == old(jobs)@,
            (Err(e), Ok(_)) => {
                &&& e@ == (500u16, "another job has the id that was drawn"@)
                &&& final(jobs)@ == old(jobs)@
                &&& exists|id: Seq<char>|
                    store::job_id(id) && #[trigger] store::has_job(old(jobs)@.records, id)
            },
            (Ok(_), Err(_)) => false,
        },
{
    let settings = jobs.settings();
    let new = match resolve_job(&settings, input, probe) {
        Ok(n) => n,
        Err(e) => return Err(e),
    };
    match jobs.create_job(new) {
        Ok(job) => Ok(job),
        Err(StoreError::IdTaken) => Err(
            Refusal { status: 500, message: "another job has the id that was drawn".to_string() },
        ),
    }
}

/// The job `id`.
pub fn get_job(jobs: &SubtitleStore, id: &str) -> (r: Result<Job, Refusal>)
    requires
        jobs.wf(),
    ensures
        match (r, store::found(jobs@.records, id@)) {
            (Ok(job), Some(record)) => job@ == record.job,
            (Err(e), None) => e@ == no_such_job(),
            _ => false,
        },
{
    match jobs.get_job(id) {
        Some(job) => Ok(job),
        None => Err(not_found()),
    }
}

/// The cues of the job `id`.
pub fn get_cues(jobs: &SubtitleStore, id: &str) -> (r: Result<Vec<Cue>, Refusal>)
    requires
        jobs.wf(),
    ensures
        match (r, store::found(jobs@.records, id@)) {
            (Ok(list), Some(record)) => cues::views(list@) == record.cues,
            (Err(e), None) => e@ == no_such_job(),
            _ => false,
        },
{
    match jobs.get_job(id) {
        Some(_) => Ok(jobs.cues(id)),
        None => Err(not_found()),
    }
}

/// Whether a character may stand in a quoted header value as it is.
pub open spec fn header_safe(c: char) -> bool {
    !text::control(c) && c != '"' && c != '\\'
}

/// `s` without the characters that may not stand in a quoted header value.
pub open spec fn sanitized(s: Seq<char>) -> Seq<char>
    decreases s.len(),
{
    if s.len() == 0 {
        seq![]
    } else if header_safe(s.last()) {
        sanitized(s.drop_last()).push(s.last())
    } else {
        sanitized(s.drop_last())
    }
}

fn sanitized_of(cs: &[char]) -> (r: Vec<char>)
    ensures
        r@ == sanitized(cs@),
{
    let mut out: Vec<char> = Vec::new();
    let mut i: usize = 0;
    while i < cs.len()
        invariant
            i <= cs@.len(),
            out@ == sanitized(cs@.take(i as int)),
        decreases cs@.len() - i,
    {
        assert(cs@.take(i + 1).drop_last() =~= cs@.take(i as int));
        let c = cs[i];
        if !text::is_control(c) && c != '"' && c != '\\' {
            out.push(c);
        }
        i += 1;
    }
    assert(cs@.take(i as int) =~= cs@);
    out
}

/// The name that a file is downloaded under.
pub open spec fn file_name_for(source_name: Seq<char>, language: Seq<char>, format: Format) -> Seq<
    char,
> {
    let stem = match paths::file_name(source_name, '/') {
        Some(name) => paths::stem(name),
        None => "subtitles"@,
    };
    sanitized(stem) + seq!['.'] + language + seq!['.'] + format.suffix()
}

/// The name that a file is downloaded under: the convention by which players find a track
/// beside its video. The source name comes from the disk, so what could break out of a quoted
/// header value is left out.
pub fn download_filename(job: &Job, format: Format) -> (r: String)
    ensures
        r@ == file_name_for(job@.source_name, job@.target_language, format),
{
    let stem: Vec<char> = match paths::file_name_of(
        text::chars_of(&job.source_name).as_slice(),
        '/',
    ) {
        Some(name) => paths::stem_of(name.as_slice()),
        None => text::chars_of("subtitles"),
    };
    let mut out = sanitized_of(stem.as_slice());
    out.push('.');
    text::append_str(&mut out, &job.target_language);
    out.push('.');
    text::append_str(&mut out, format.extension());
    assert(out@ =~= file_name_for(job@.source_name, job@.target_language, format));
    text::string_of(out.as_slice())
}

proof fn lemma_sanitized(s: Seq<char>)
    ensures
        forall|i: int| 0 <= i < sanitized(s).len() ==> header_safe(#[trigger] sanitized(s)[i]),
    decreases s.len(),
{
    if s.len() > 0 {
        lemma_sanitized(s.drop_last());
        let front = sanitized(s.drop_last());
        assert forall|i: int| 0 <= i < sanitized(s).len() implies header_safe(
            #[trigger] sanitized(s)[i],
        ) by {
            if i < front.len() {
                assert(sanitized(s)[i] == front[i]);
            }
        }
    }
}

/// Whatever a source is called, the name its subtitles are downloaded under cannot break out
/// of a quoted header value, as long as the code of the language cannot.
pub proof fn download_names_are_header_safe(
    source_name: Seq<char>,
    language: Seq<char>,
    format: Format,
)
    requires
        forall|i: int| 0 <= i < language.len() ==> header_safe(#[trigger] language[i]),
    ensures
        forall|i: int|
            0 <= i < file_name_for(source_name, language, format).len() ==> header_safe(
                #[trigger] file_name_for(source_name, language, format)[i],
            ),
{
    let stem = match paths::file_name(source_name, '/') {
        Some(name) => paths::stem(name),
        None => "subtitles"@,
    };
    lemma_sanitized(stem);
    reveal_strlit("srt");
    reveal_strlit("vtt");
    let a = sanitized(stem);
    let name = file_name_for(source_name, language, format);
    assert forall|i: int| 0 <= i < name.len() implies header_safe(#[trigger] name[i]) by {
        if i < a.len() {
            assert(name[i] == a[i]);
        } else if i == a.len() {
            assert(name[i] == '.');
        } else if i < a.len() + 1 + language.len() {
            assert(name[i] == language[i - a.len() - 1]);
        } else if i == a.len() + 1 + language.len() {
            assert(name[i] == '.');
        } else {
            assert(name[i] == format.suffix()[i - a.len() - 2 - language.len()]);
        }
    }
}

/// How a file is to be rendered instead of the way its job says.
#[derive(Debug, Clone, PartialEq, Eq)]
pub struct DownloadQuery {
    pub format: Option<String>,
    pub layout: Option<String>,
}

/// A file to be downloaded.
#[derive(Debug, Clone, PartialEq, Eq)]
pub struct Download {
    pub content_type: String,
    pub filename: String,
    pub body: String,
}

/// A file to be downloaded, as a mathematical value.
#[verifier::ext_equal]
pub struct DownloadView {
    pub content_type: Seq<char>,
    pub filename: Seq<char>,
    pub body: Seq<char>,
}

impl View for Download {
    type V = DownloadView;

    open spec fn view(&self) -> DownloadView {
        DownloadView {
            content_type: self.content_type@,
            filename: self.filename@,
            body: self.body@,
        }
    }
}

impl Download {
    /// The value of the header that makes a browser save the file under its name.
    pub fn disposition(&self) -> (r: String)
        ensures
            r@ == "attachment; filename=\""@ + self@.filename + "\""@,
    {
        text::concat3("attachment; filename=\"", &self.filename, "\"")
    }
}

/// The file of a job, rendered as it was asked for, or why there is none; with the format and
/// the layout.
pub open spec fn rendered_file(
    record: Option<RecordView>,
    format: Option<Seq<char>>,
    layout: Option<Seq<char>>,
) -> Result<(DownloadView, Format, Layout), RefusalView> {
    match record {
        None => Err(no_such_job()),
        Some(r) => match (pick_format(format, r.job.format), pick_layout(layout, r.job.layout)) {
            (Err(e), _) => Err(e),
            (Ok(_), Err(e)) => Err(e),
            (Ok(f), Ok(l)) => if r.cues.len() == 0 {
                Err((409, "this job has no subtitles yet"@))
            } else {
                Ok(
                    (
                        DownloadView {
                            content_type: match f {
                                Format::Srt => "application/x-subrip"@,
                                Format::Vtt => "text/vtt"@,
                            },
                            filename: file_name_for(r.job.source_name, r.job.target_language, f),
                            body: cues::file_text(r.cues, f, l),
                        },
                        f,
                        l,
                    ),
                )
            },
        },
    }
}

/// Renders the file of a job for download, at the time `now`. The choice is remembered, so that
/// the next download agrees with this one.
pub fn download(jobs: &mut SubtitleStore, id: &str, query: &DownloadQuery, now: i64) -> (r: Result<
    Download,
    Refusal,
>)
    requires
        old(jobs).wf(),
    ensures
        final(jobs).wf(),
        match (
            r,
            rendered_file(
                store::found(old(jobs)@.records, id@),
                text::opt(query.format),
                text::opt(query.layout),
            ),
        ) {
            (Ok(d), Ok((v, f, l))) => {
                let job = store::found(old(jobs)@.records, id@)->0.job;
                &&& d@ == v
                &&& final(jobs)@ == if f != job.format || l != job.layout {
                    store::render_stored(old(jobs)@, id@, f, l, now)
                } else {
                    old(jobs)@
                }
            },
            (Err(e), Err(x)) => e@ == x && final(jobs)@ == old(jobs)@,
            _ => false,
        },
{
    let job = match jobs.get_job(id) {
        Some(job) => job,
        None => return Err(not_found()),
    };
    let format = match pick_format_of(&query.format, job.format) {
        Ok(f) => f,
        Err(e) => return Err(e),
    };
    let layout = match pick_layout_of(&query.layout, job.layout) {
        Ok(l) => l,
        Err(e) => return Err(e),
    };
    let list = jobs.cues(id);
    assert(cues::views(list@).len() == list@.len());
    if list.len() == 0 {
        return Err(
            Refusal { status: 409, message: "this job has no subtitles yet".to_string() },
        );
    }
    if format != job.format || layout != job.layout {
        jobs.set_render_options_at(id, format, layout, now);
    }
    Ok(
        Download {
            content_type: format.content_type().to_string(),
            filename: download_filename(&job, format),
            body: cues::render(list.as_slice(), format, layout),
        },
    )
}

proof fn lemma_found_after(s: StoreView, id: Seq<char>, f: spec_fn(RecordView) -> RecordView)
    requires
        store::ids_unique(s.records),
        store::ids_unique(store::changed(s, id, f).records),
        store::has_job(s.records, id),
        f(store::found(s.records, id)->0).job.id == id,
    ensures
        store::found(store::changed(s, id, f).records, id) == Some(
            f(store::found(s.records, id)->0),
        ),
{
    let i = choose|i: int| 0 <= i < s.records.len() && (#[trigger] s.records[i]).job.id == id;
    store::lemma_found(s.records, i);
    let t = store::changed(s, id, f);
    assert(t.records[i] == f(s.records[i]));
    store::lemma_found(t.records, i);
}

/// Puts a finished job back into the queue at the time `now`, and returns it.
pub fn retry_job(jobs: &mut SubtitleStore, id: &str, now: i64) -> (r: Result<Job, Refusal>)
    requires
        old(jobs).wf(),
    ensures
        final(jobs).wf(),
        match store::found(old(jobs)@.records, id@) {
            None => r matches Err(e) && e@ == no_such_job() && final(jobs)@ == old(jobs)@,
            Some(record) => if record.job.status.over() {
                &&& r matches Ok(job) && job@ == store::with_requeue(record, now).job
                &&& final(jobs)@ == store::requeued(old(jobs)@, id@, now)
            } else {
                &&& r matches Err(e) && e@ == (409u16, "this job is still running"@)
                &&& final(jobs)@ == old(jobs)@
            },
        },
{
    match jobs.get_job(id) {
        None => Err(not_found()),
        Some(job) => {
            if !job.status.is_terminal() {
                return Err(
                    Refusal { status: 409, message: "this job is still running".to_string() },
                );
            }
            let ghost before = jobs@;
            jobs.requeue_at(id, now);
            proof {
                lemma_found_after(before, id@, |r: RecordView| store::with_requeue(r, now));
            }
            match jobs.get_job(id) {
                Some(job) => Ok(job),
                None => Err(not_found()),
            }
        },
    }
}

/// Cancels a job at the time `now`, if it is not finished, and returns it. A worker stops at
/// the next window.
pub fn cancel_job(jobs: &mut SubtitleStore, id: &str, now: i64) -> (r: Result<Job, Refusal>)
    requires
        old(jobs).wf(),
    ensures
        final(jobs).wf(),
        match store::found(old(jobs)@.records, id@) {
            None => r matches Err(e) && e@ == no_such_job() && final(jobs)@ == old(jobs)@,
            Some(record) => if record.job.status.over() {
                &&& r matches Ok(job) && job@ == record.job
                &&& final(jobs)@ == old(jobs)@
            } else {
                &&& r matches Ok(job) && job@ == store::with_status(
                    record,
                    Status::Canceled,
                    Some("Cancelled."@),
                    now,
                ).job
                &&& final(jobs)@ == store::moved(
                    old(jobs)@,
                    id@,
                    Status::Canceled,
                    Some("Cancelled."@),
                    now,
                )
            },
        },
{
    match jobs.get_job(id) {
        None => Err(not_found()),
        Some(job) => {
            if job.status.is_terminal() {
                return Ok(job);
            }
            let ghost before = jobs@;
            jobs.set_status_at(id, Status::Canceled, Some("Cancelled."), now);
            proof {
                lemma_found_after(
                    before,
                    id@,
                    |r: RecordView|
                        store::with_status(r, Status::Canceled, Some("Cancelled."@), now),
                );
            }
            match jobs.get_job(id) {
                Some(job) => Ok(job),
                None => Err(not_found()),
            }
        },
    }
}

/// Deletes a job. The source is never touched.
pub fn delete_job(jobs: &mut SubtitleStore, id: &str) -> (r: Result<(), Refusal>)
    requires
        old(jobs).wf(),
    ensures
        final(jobs).wf(),
        final(jobs)@ == (StoreView {
            records: store::without(old(jobs)@.records, id@),
            ..old(jobs)@
        }),
        match r {
            Ok(_) => store::has_job(old(jobs)@.records, id@),
            Err(e) => !store::has_job(old(jobs)@.records, id@) && e@ == no_such_job(),
        },
{
    if jobs.delete_job(id) {
        Ok(())
    } else {
        Err(not_found())
    }
}

/// What the list shows of a job that its record does not hold.
#[derive(Debug, Clone, Copy, PartialEq, Eq)]
pub struct Decoration {
    pub source_missing: bool,
    pub downloadable: bool,
    pub language_name: Option<&'static str>,
}

/// What the list shows of a job, given whether its source is still there.
pub fn decorate(job: &Job, source_exists: bool) -> (r: Decoration)
    ensures
        r.source_missing == !source_exists,
        r.downloadable == (job@.status == Status::Completed && job@.cue_count > 0),
        match (r.language_name, languages::lookup(job@.target_language)) {
            (Some(n), Some(l)) => n == l.name,
            (None, None) => true,
            _ => false,
        },
{
    let language_name = match languages::find(&job.target_language) {
        Some(l) => Some(l.name),
        None => None,
    };
    Decoration {
        source_missing: !source_exists,
        downloadable: job.status == Status::Completed && job.cue_count > 0,
        language_name,
    }
}

/// The directory that a request wants listed, if it names one.
pub fn browsed_dir(dir: &Option<String>) -> (r: Option<String>)
    ensures
        text::opt(r) == text::given(text::opt(*dir)),
{
    text::given_of(dir)
}

/// What a change to the settings leaves out keeps its value.
pub proof fn what_is_left_out_keeps_its_value(s: SettingsView, input: SettingsInput)
    ensures
        merged(s, input) matches Ok(t) ==> {
            &&& input.target_language is None ==> t.target_language == s.target_language
            &&& input.format is None ==> t.format == s.format
            &&& input.layout is None ==> t.layout == s.layout
            &&& input.engine is None ==> t.engine == s.engine
            &&& input.model is None ==> t.model == s.model
            &&& input.write_beside_source is None ==> t.write_beside_source
                == s.write_beside_source
        },
        input.target_language is None && input.format is None && input.layout is None
            ==> merged(s, input) is Ok,
{
}

/// Settings that were saved are the ones in force.
pub proof fn saved_settings_are_in_force(s: StoreView, t: SettingsView)
    ensures
        current_settings(StoreView { settings: Some(t), ..s }) == t,
{
}

/// A job is only ever queued for a language of the table, under the table's own spelling.
pub proof fn jobs_speak_a_listed_language(
    s: SettingsView,
    input: CreateJobInput,
    canonical: Option<PathView>,
    is_file: bool,
    roots: Seq<PathView>,
)
    ensures
        resolved(s, input, canonical, is_file, roots) matches Ok(n) ==> exists|i: int|
            0 <= i < languages::language_table().len() && (
            #[trigger] languages::language_table()[i]).code@ == n.target_language,
{
    let code = match text::opt(input.target_language) {
        Some(c) => c,
        None => s.target_language,
    };
    languages::lookup_is_closed(code);
}

/// A job is only ever queued for a source that passed the guard.
pub proof fn jobs_pass_the_guard(
    s: SettingsView,
    input: CreateJobInput,
    canonical: Option<PathView>,
    is_file: bool,
    roots: Seq<PathView>,
)
    ensures
        resolved(s, input, canonical, is_file, roots) matches Ok(n) ==> (library::guard(
            input.source_path@,
            canonical,
            is_file,
            roots,
        ) matches Ok(source) && n.source_path == source.text),
{
}

/// The word that a layout is stored as is one of the names it is asked for by.
pub proof fn stored_layouts_are_understood(layout: Layout)
    ensures
        layout_named(store::layout_word(layout)) == Some(layout),
{
    reveal_strlit("translated");
    reveal_strlit("target");
    reveal_strlit("source");
    reveal_strlit("original");
    reveal_strlit("bilingual");
    reveal_strlit("both");
    reveal_strlit("dual");
    let w = store::layout_word(layout);
    text::lemma_trim_fixed(w);
    assert(text::ascii_lower(w) =~= w);
    assert("translated"@.len() == 10);
    assert("target"@.len() == 6);
    assert("target"@[0] == 't');
    assert("source"@.len() == 6);
    assert("source"@[0] == 's');
    assert("original"@.len() == 8);
}

/// Refusals are told apart by their status: a path outside the folders is forbidden, one that
/// leads nowhere is not found, one that is no media is not supported, and a job that is not
/// there is not found either. What is not understood is named.
pub proof fn refusals_are_told_apart(what: Seq<char>, value: Seq<char>)
    ensures
        path_refusal(PathError::OutsideRoots) == (
            403u16,
            "that path is outside the folders this app can read (your home folder and the Ryu data folder)"@,
        ),
        path_refusal(PathError::Missing) == (404u16, "that file no longer exists"@),
        path_refusal(PathError::NotMedia) == (
            415u16,
            "that file is not a video or audio file this app can read"@,
        ),
        no_such_job() == (404u16, "no such job"@),
        unknown(what, value) == (400u16, "unknown "@ + what + " `"@ + value + "`"@),
{
}

/// A layout goes by the names on its list, whatever their case and the whitespace around them,
/// and by no other.
pub proof fn layouts_have_their_names(value: Seq<char>)
    ensures
        layout_named(value) == Some(Layout::Translated) <==> seq!["translated"@, "target"@].contains(
            text::ascii_lower(text::trim(value)),
        ),
        layout_named(value) == Some(Layout::Source) <==> seq!["source"@, "original"@].contains(
            text::ascii_lower(text::trim(value)),
        ),
        layout_named(value) == Some(Layout::Bilingual) <==> seq![
            "bilingual"@,
            "both"@,
            "dual"@,
        ].contains(text::ascii_lower(text::trim(value))),
{
    reveal_strlit("translated");
    reveal_strlit("target");
    reveal_strlit("source");
    reveal_strlit("original");
    reveal_strlit("bilingual");
    reveal_strlit("both");
    reveal_strlit("dual");
    let a = seq!["translated"@, "target"@];
    let b = seq!["source"@, "original"@];
    let c = seq!["bilingual"@, "both"@, "dual"@];
    assert(a[0] == "translated"@ && a[1] == "target"@);
    assert(b[0] == "source"@ && b[1] == "original"@);
    assert(c[0] == "bilingual"@ && c[1] == "both"@ && c[2] == "dual"@);
    assert("translated"@[0] == 't' && "target"@[0] == 't');
    assert("source"@[0] == 's' && "original"@[0] == 'o');
    assert("bilingual"@[0] == 'b' && "both"@[0] == 'b' && "dual"@[0] == 'd');
}

/// What was asked for by a name is used, and what is there where nothing was asked for; a name
/// that stands for nothing is refused, and the refusal names it. A language is taken under the
/// spelling of the table, also where none was asked for.
pub proof fn what_is_asked_for_is_used(
    asked: Seq<char>,
    format: Format,
    layout: Layout,
    language: Seq<char>,
)
    ensures
        pick_format(None, format) == Ok::<Format, RefusalView>(format),
        cues::format_named(asked) is Some ==> pick_format(Some(asked), format) == Ok::<
            Format,
            RefusalView,
        >(cues::format_named(asked)->0),
        cues::format_named(asked) is None ==> pick_format(Some(asked), format) == Err::<
            Format,
            RefusalView,
        >((400u16, "unknown "@ + "subtitle format"@ + " `"@ + asked + "`"@)),
        pick_layout(None, layout) == Ok::<Layout, RefusalView>(layout),
        layout_named(asked) is Some ==> pick_layout(Some(asked), layout) == Ok::<
            Layout,
            RefusalView,
        >(layout_named(asked)->0),
        layout_named(asked) is None ==> pick_layout(Some(asked), layout) == Err::<
            Layout,
            RefusalView,
        >((400u16, "unknown "@ + "layout"@ + " `"@ + asked + "`"@)),
        pick_language(None, asked) == pick_language(Some(asked), language),
        languages::lookup(asked) is Some ==> pick_language(Some(asked), language) == Ok::<
            Seq<char>,
            RefusalView,
        >(languages::lookup(asked)->0.code@),
        languages::lookup(asked) is None ==> pick_language(Some(asked), language) == Err::<
            Seq<char>,
            RefusalView,
        >((400u16, "unknown "@ + "target language"@ + " `"@ + asked + "`"@)),
{
}

/// A change to the settings takes what it gives: a language by its code, a format and a layout by
/// their names, an engine that is not blank, a model even where it is blank, and whether files
/// are written next to their source. The first of the three names that is not understood, in
/// this order, is what it is refused for.
pub proof fn settings_take_what_is_given(s: SettingsView, input: SettingsInput)
    ensures
        ({
            let language = if input.target_language is Some {
                pick_language(Some(input.target_language->0@), s.target_language)
            } else {
                Ok(s.target_language)
            };
            let format = pick_format(text::opt(input.format), s.format);
            let layout = pick_layout(text::opt(input.layout), s.layout);
            &&& merged(s, input) is Ok <==> language is Ok && format is Ok && layout is Ok
            &&& language is Err ==> merged(s, input)->Err_0 == language->Err_0
            &&& language is Ok && format is Err ==> merged(s, input)->Err_0 == format->Err_0
            &&& language is Ok && format is Ok && layout is Err ==> merged(s, input)->Err_0
                == layout->Err_0
            &&& merged(s, input) matches Ok(t) ==> {
                &&& t.target_language == language->Ok_0
                &&& t.format == format->Ok_0
                &&& t.layout == layout->Ok_0
                &&& input.engine is Some && !text::blank(input.engine->0@) ==> t.engine
                    == text::trim(input.engine->0@)
                &&& input.engine is Some && text::blank(input.engine->0@) ==> t.engine == s.engine
                &&& input.model is Some ==> t.model == text::trim(input.model->0@)
                &&& input.write_beside_source is Some ==> t.write_beside_source
                    == input.write_beside_source->0
            }
        }),
        current_settings(StoreView { records: seq![], settings: None }) == store::default_settings(),
{
    if input.engine is Some {
        text::lemma_trim(input.engine->0@);
    }
}

/// A request for a job is refused for its source first, then for its language, its format and
/// its layout. A job is made of the source that was resolved and its name, of what was asked
/// for, and of the settings where nothing was; a blank engine or model counts as nothing.
pub proof fn a_job_is_what_was_asked_for(
    s: SettingsView,
    input: CreateJobInput,
    canonical: Option<PathView>,
    is_file: bool,
    roots: Seq<PathView>,
)
    ensures
        ({
            let verdict = library::guard(input.source_path@, canonical, is_file, roots);
            let language = pick_language(text::opt(input.target_language), s.target_language);
            let format = pick_format(text::opt(input.format), s.format);
            let layout = pick_layout(text::opt(input.layout), s.layout);
            let r = resolved(s, input, canonical, is_file, roots);
            &&& r is Ok <==> verdict is Ok && language is Ok && format is Ok && layout is Ok
            &&& verdict is Err ==> r->Err_0 == path_refusal(verdict->Err_0)
            &&& verdict is Ok && language is Err ==> r->Err_0 == language->Err_0
            &&& verdict is Ok && language is Ok && format is Err ==> r->Err_0 == format->Err_0
            &&& verdict is Ok && language is Ok && format is Ok && layout is Err ==> r->Err_0
                == layout->Err_0
            &&& r matches Ok(n) ==> {
                &&& Some(n.source_path) == Some(canonical->0.text)
                &&& canonical->0.name is Some ==> n.source_name == canonical->0.name->0
                &&& canonical->0.name is None ==> n.source_name == "video"@
                &&& n.target_language == language->Ok_0
                &&& n.format == format->Ok_0
                &&& n.layout == layout->Ok_0
                &&& input.engine is Some && !text::blank(input.engine->0@) ==> n.engine
                    == text::trim(input.engine->0@)
                &&& input.engine is None || text::blank(input.engine->0@) ==> n.engine == s.engine
                &&& input.model is Some && !text::blank(input.model->0@) ==> n.model == text::trim(
                    input.model->0@,
                )
                &&& input.model is None || text::blank(input.model->0@) ==> n.model == s.model
            }
        }),
{
    if input.engine is Some {
        text::lemma_trim(input.engine->0@);
    }
    if input.model is Some {
        text::lemma_trim(input.model->0@);
    }
}

/// A job that a request queues is the one that the store makes of it.
pub proof fn a_queued_job_is_a_new_one(n: NewJob, id: Seq<char>, at: i64)
    ensures
        queued_from(new_job_view(n), id, at) == store::queued_job(n, id, at),
{
}

/// Of a name, all that is left out in a quoted header value are quotes, backslashes and control
/// characters; everything else stays, in its order.
pub proof fn only_unsafe_characters_are_left_out(s: Seq<char>)
    ensures
        sanitized(s) == s.filter(
            |c: char|
                (c as u32) >= 0x20 && !(0x7f <= (c as u32) <= 0x9f) && c != '"' && c != '\\',
        ),
    decreases s.len(),
{
    reveal(Seq::filter);
    if s.len() > 0 {
        only_unsafe_characters_are_left_out(s.drop_last());
    }
}

/// A file is downloaded under the stem of its source, without what a header value cannot hold,
/// the language and the extension of its format; of a source that lies deeper, under the stem
/// of its last name.
pub proof fn a_download_is_named_after_its_source(
    d: Seq<char>,
    name: Seq<char>,
    language: Seq<char>,
    format: Format,
)
    requires
        paths::plain_directory(d, '/'),
        paths::names(name),
        paths::without(name, '/'),
        paths::without(language, '.'),
    ensures
        ({
            let file = file_name_for(d + name, language, format);
            let base = sanitized(paths::stem(name));
            &&& file == base + seq!['.'] + language + match format {
                Format::Srt => ".srt"@,
                Format::Vtt => ".vtt"@,
            }
            &&& paths::extension(file) == Some(
                match format {
                    Format::Srt => "srt"@,
                    Format::Vtt => "vtt"@,
                },
            )
            &&& base.len() > 0 ==> paths::extension(paths::stem(file)) == Some(language)
                && paths::stem(paths::stem(file)) == base
        }),
        file_name_for(seq![], language, format) == file_name_for(
            "subtitles"@,
            language,
            format,
        ),
{
    reveal_strlit("srt");
    reveal_strlit("vtt");
    reveal_strlit(".srt");
    reveal_strlit(".vtt");
    reveal_strlit("subtitles");
    reveal_strlit(".");
    reveal_strlit("..");
    paths::a_path_comes_apart(d, name, '/');
    let file = file_name_for(d + name, language, format);
    let base = sanitized(paths::stem(name));
    let e = match format {
        Format::Srt => "srt"@,
        Format::Vtt => "vtt"@,
    };
    assert(file =~= base + seq!['.'] + language + match format {
        Format::Srt => ".srt"@,
        Format::Vtt => ".vtt"@,
    });
    let rest = base + seq!['.'] + language;
    assert(file =~= rest + seq!['.'] + e);
    paths::the_last_dot_makes_the_extension(rest, e);
    paths::the_last_dot_makes_the_extension(base, language);
    let none = Seq::<char>::empty();
    paths::not_every_path_names_a_file(none, '/');
    assert(none + "subtitles"@ =~= "subtitles"@);
    paths::a_path_comes_apart(none, "subtitles"@, '/');
    paths::the_last_dot_makes_the_extension(none, "subtitles"@);
}

/// A file that can be downloaded shows the cues of its job in the format and the layout that
/// were asked for, or else in those of the job. A job that is not there, a name that is not
/// understood and a job without cues are refused, in this order.
pub proof fn a_download_shows_the_cues(
    record: RecordView,
    format: Option<Seq<char>>,
    layout: Option<Seq<char>>,
)
    ensures
        rendered_file(None, format, layout) == Err::<(DownloadView, Format, Layout), RefusalView>(
            (404u16, "no such job"@),
        ),
        ({
            let f = pick_format(format, record.job.format);
            let l = pick_layout(layout, record.job.layout);
            let r = rendered_file(Some(record), format, layout);
            &&& r is Ok <==> f is Ok && l is Ok && record.cues.len() > 0
            &&& f is Err ==> r->Err_0 == f->Err_0
            &&& f is Ok && l is Err ==> r->Err_0 == l->Err_0
            &&& f is Ok && l is Ok && record.cues.len() == 0 ==> r->Err_0 == (
                409u16,
                "this job has no subtitles yet"@,
            )
            &&& r matches Ok((d, g, m)) ==> {
                &&& Ok::<Format, RefusalView>(g) == f
                &&& Ok::<Layout, RefusalView>(m) == l
                &&& g == Format::Srt ==> d.content_type == "application/x-subrip"@
                &&& g == Format::Vtt ==> d.content_type == "text/vtt"@
                &&& d.body == cues::file_text(record.cues, g, m)
                &&& d.filename == file_name_for(
                    record.job.source_name,
                    record.job.target_language,
                    g,
                )
            }
        }),
{
}

} // verus!
