use ryu_subtitles::api::{
    browsed_dir, cancel_job, create_job, decorate, delete_job, download, download_filename,
    get_cues, get_job, parse_layout, path_error, put_settings, retry_job, CreateJobInput,
    DownloadQuery, Refusal, SettingsInput,
};
use ryu_subtitles::cues::{Cue, Format, Layout};
use ryu_subtitles::library::{MediaPath, PathError, SourceProbe};
use ryu_subtitles::store::{layout_str, Job, NewJob, Status, SubtitleStore, FULL};

fn job() -> Job {
    Job {
        id: "sub_1".into(),
        source_path: "/movies/The Film.mkv".into(),
        source_name: "The Film.mkv".into(),
        target_language: "es".into(),
        format: Format::Srt,
        layout: Layout::Translated,
        status: Status::Completed,
        progress: FULL,
        stage: "Done".into(),
        error: None,
        duration_ms: Some(1000),
        cue_count: 12,
        translated_count: 12,
        engine: "whisper".into(),
        model: String::new(),
        output_path: None,
        created_at: 0,
        updated_at: 0,
        completed_at: Some(0),
    }
}

fn film() -> MediaPath {
    MediaPath::parse("/home/ryu/The Film.mkv", '/')
}

fn home() -> MediaPath {
    MediaPath::parse("/home/ryu", '/')
}

fn there() -> SourceProbe {
    SourceProbe {
        canonical: Some(film()),
        is_file: true,
        roots: vec![home()],
    }
}

fn gone() -> SourceProbe {
    SourceProbe {
        canonical: None,
        is_file: false,
        roots: vec![home()],
    }
}

fn request() -> CreateJobInput {
    CreateJobInput {
        source_path: " /home/ryu/The Film.mkv ".into(),
        target_language: None,
        format: None,
        layout: None,
        engine: None,
        model: None,
    }
}

fn nothing() -> SettingsInput {
    SettingsInput {
        target_language: None,
        format: None,
        layout: None,
        engine: None,
        model: None,
        write_beside_source: None,
    }
}

fn queued() -> SubtitleStore {
    let mut store = SubtitleStore::memory();
    let new = NewJob {
        source_path: "/movies/The Film.mkv".into(),
        source_name: "The Film.mkv".into(),
        target_language: "es".into(),
        format: Format::Srt,
        layout: Layout::Translated,
        engine: "whisper".into(),
        model: String::new(),
    };
    assert!(store.insert_job(new, "sub_1".to_string(), 1).is_some());
    store
}

fn hello() -> Cue {
    Cue {
        start_ms: 0,
        end_ms: 1_000,
        text: "hello".into(),
        translated: Some("hola".into()),
    }
}

fn refusal(status: u16, message: &str) -> Refusal {
    Refusal {
        status,
        message: message.to_string(),
    }
}

#[test]
fn download_filename_follows_the_player_convention() {
    assert_eq!(download_filename(&job(), Format::Srt), "The Film.es.srt");
    assert_eq!(download_filename(&job(), Format::Vtt), "The Film.es.vtt");
}

#[test]
fn download_filename_cannot_break_the_content_disposition_header() {
    let mut j = job();
    j.source_name = "we\"ird\r\nname.mkv".into();
    let name = download_filename(&j, Format::Srt);
    assert!(!name.contains('"'));
    assert!(!name.contains('\n') && !name.contains('\r'));
    assert_eq!(name, "weirdname.es.srt");
}

#[test]
fn layout_parsing_accepts_the_aliases_the_ui_sends() {
    assert_eq!(parse_layout("Bilingual"), Some(Layout::Bilingual));
    assert_eq!(parse_layout("both"), Some(Layout::Bilingual));
    assert_eq!(parse_layout("original"), Some(Layout::Source));
    assert_eq!(parse_layout("target"), Some(Layout::Translated));
    assert_eq!(parse_layout("sideways"), None);
}

#[test]
fn decoration_reports_a_missing_source_and_download_readiness() {
    let value = decorate(&job(), false);
    assert_eq!(value.source_missing, true, "/movies is fictional");
    assert_eq!(value.downloadable, true);
    assert_eq!(value.language_name, Some("Spanish"));

    let mut running = job();
    running.status = Status::Transcribing;
    running.cue_count = 0;
    assert_eq!(decorate(&running, true).downloadable, false);
    assert_eq!(decorate(&running, true).source_missing, false);
}

#[test]
fn path_errors_map_to_three_distinguishable_statuses() {
    assert_eq!(path_error(&PathError::Missing).status, 404);
    assert_eq!(path_error(&PathError::OutsideRoots).status, 403);
    assert_eq!(path_error(&PathError::NotMedia).status, 415);
    assert_eq!(
        path_error(&PathError::Missing).message,
        "that file no longer exists"
    );
}

#[test]
fn a_download_name_is_the_stem_of_the_last_name() {
    let named = |source: &str| {
        let mut j = job();
        j.source_name = source.to_string();
        download_filename(&j, Format::Srt)
    };
    assert_eq!(named("a.b.mkv"), "a.b.es.srt");
    assert_eq!(named(".hidden"), ".hidden.es.srt");
    assert_eq!(named("plain"), "plain.es.srt");
    assert_eq!(named(""), "subtitles.es.srt");
    assert_eq!(named(".."), "subtitles.es.srt");
    assert_eq!(named("films/a.mkv"), "a.es.srt");
    assert_eq!(named("films/a.mkv/./"), "a.es.srt");
    assert_eq!(named("back\\slash\u{7f}.mkv"), "backslash.es.srt");
    for source in ["a.b.mkv", ".hidden", "plain", "films/a.mkv", "a/.", "a/..", "/", "."] {
        let stem = std::path::Path::new(source)
            .file_stem()
            .map_or("subtitles".to_string(), |s| s.to_string_lossy().into_owned());
        assert_eq!(named(source), format!("{stem}.es.srt"), "{source}");
    }
}

#[test]
fn a_job_is_filled_in_from_the_settings() {
    let mut store = SubtitleStore::memory();
    let made = create_job(&mut store, &request(), there()).expect("queued");
    assert_eq!(made.source_path, "/home/ryu/The Film.mkv");
    assert_eq!(made.source_name, "The Film.mkv");
    assert_eq!(made.target_language, "en");
    assert_eq!(made.format, Format::Srt);
    assert_eq!(made.layout, Layout::Translated);
    assert_eq!(made.engine, "whisper");
    assert_eq!(made.status, Status::Queued);
    assert_eq!(get_job(&store, &made.id), Ok(made));
}

#[test]
fn a_job_says_what_it_wants() {
    let mut store = SubtitleStore::memory();
    let mut input = request();
    input.target_language = Some("PT-br".into());
    input.format = Some("vtt".into());
    input.layout = Some("dual".into());
    input.engine = Some(" gateway ".into());
    input.model = Some(" qwen ".into());
    let made = create_job(&mut store, &input, there()).expect("queued");
    assert_eq!(made.target_language, "pt-BR");
    assert_eq!(made.format, Format::Vtt);
    assert_eq!(made.layout, Layout::Bilingual);
    assert_eq!(made.engine, "gateway");
    assert_eq!(made.model, "qwen");
}

#[test]
fn a_job_that_makes_no_sense_is_refused() {
    let mut store = SubtitleStore::memory();
    let refused = |store: &mut SubtitleStore, input: &CreateJobInput, probe: SourceProbe| {
        create_job(store, input, probe).expect_err("refused")
    };
    assert_eq!(
        refused(&mut store, &request(), gone()),
        refusal(404, "that file no longer exists")
    );
    let mut input = request();
    input.layout = Some("sideways".into());
    assert_eq!(
        refused(&mut store, &input, there()),
        refusal(400, "unknown layout `sideways`")
    );
    input.format = Some("ass".into());
    assert_eq!(
        refused(&mut store, &input, there()),
        refusal(400, "unknown subtitle format `ass`")
    );
    input.target_language = Some("klingon".into());
    assert_eq!(
        refused(&mut store, &input, there()),
        refusal(400, "unknown target language `klingon`")
    );
    assert_eq!(store.job_count(), 0);
}

#[test]
fn settings_change_only_where_something_is_said() {
    let mut store = SubtitleStore::memory();
    let before = store.settings();
    assert_eq!(put_settings(&mut store, &nothing()), Ok(before.clone()));
    let mut input = nothing();
    input.target_language = Some("JA".into());
    input.engine = Some("  ".into());
    input.model = Some(" qwen ".into());
    input.write_beside_source = Some(false);
    let after = put_settings(&mut store, &input).expect("saved");
    assert_eq!(after.target_language, "ja");
    assert_eq!(after.engine, before.engine);
    assert_eq!(after.model, "qwen");
    assert_eq!(after.format, before.format);
    assert_eq!(after.layout, before.layout);
    assert!(!after.write_beside_source);
    assert_eq!(store.settings(), after);
    let mut bad = nothing();
    bad.format = Some("ass".into());
    assert_eq!(
        put_settings(&mut store, &bad),
        Err(refusal(400, "unknown subtitle format `ass`"))
    );
    assert_eq!(store.settings(), after);
}

#[test]
fn a_job_that_is_not_there_is_not_found() {
    let mut store = queued();
    let none = refusal(404, "no such job");
    let query = DownloadQuery {
        format: None,
        layout: None,
    };
    assert_eq!(get_job(&store, "sub_2"), Err(none.clone()));
    assert_eq!(get_cues(&store, "sub_2"), Err(none.clone()));
    assert_eq!(download(&mut store, "sub_2", &query, 5), Err(none.clone()));
    assert_eq!(retry_job(&mut store, "sub_2", 5), Err(none.clone()));
    assert_eq!(cancel_job(&mut store, "sub_2", 5), Err(none.clone()));
    assert_eq!(delete_job(&mut store, "sub_2"), Err(none));
    assert_eq!(delete_job(&mut store, "sub_1"), Ok(()));
    assert_eq!(store.job_count(), 0);
}

#[test]
fn a_download_is_rendered_as_asked_and_the_choice_is_remembered() {
    let mut store = queued();
    let plain = DownloadQuery {
        format: None,
        layout: None,
    };
    assert_eq!(
        download(&mut store, "sub_1", &plain, 5),
        Err(refusal(409, "this job has no subtitles yet"))
    );
    store.set_cues_at("sub_1", &[hello()], 6);
    let file = download(&mut store, "sub_1", &plain, 7).expect("file");
    assert_eq!(file.content_type, "application/x-subrip");
    assert_eq!(file.filename, "The Film.es.srt");
    assert_eq!(file.disposition(), "attachment; filename=\"The Film.es.srt\"");
    assert_eq!(file.body, "1\n00:00:00,000 --> 00:00:01,000\nhola\n\n");
    assert_eq!(get_job(&store, "sub_1").expect("job").updated_at, 6);
    let other = DownloadQuery {
        format: Some("VTT".into()),
        layout: Some("both".into()),
    };
    let file = download(&mut store, "sub_1", &other, 8).expect("file");
    assert_eq!(file.content_type, "text/vtt");
    assert_eq!(
        file.body,
        "WEBVTT\n\n00:00:00.000 --> 00:00:01.000\nhola\nhello\n\n"
    );
    let after = get_job(&store, "sub_1").expect("job");
    assert_eq!((after.format, after.layout), (Format::Vtt, Layout::Bilingual));
    assert_eq!(after.updated_at, 8);
    assert_eq!(get_cues(&store, "sub_1"), Ok(vec![hello()]));
    let odd = DownloadQuery {
        format: Some("ass".into()),
        layout: None,
    };
    assert_eq!(
        download(&mut store, "sub_1", &odd, 9),
        Err(refusal(400, "unknown subtitle format `ass`"))
    );
}

#[test]
fn only_a_finished_job_is_retried() {
    let mut store = queued();
    assert_eq!(
        retry_job(&mut store, "sub_1", 5),
        Err(refusal(409, "this job is still running"))
    );
    store.set_status_at("sub_1", Status::Failed, Some("boom"), 6);
    let again = retry_job(&mut store, "sub_1", 7).expect("queued again");
    assert_eq!(again.status, Status::Queued);
    assert_eq!(again.error, None);
    assert_eq!(again.completed_at, None);
}

#[test]
fn canceling_stops_a_job_and_leaves_a_finished_one_alone() {
    let mut store = queued();
    let stopped = cancel_job(&mut store, "sub_1", 5).expect("canceled");
    assert_eq!(stopped.status, Status::Canceled);
    assert_eq!(stopped.error.as_deref(), Some("Cancelled."));
    assert_eq!(stopped.completed_at, Some(5));
    let again = cancel_job(&mut store, "sub_1", 9).expect("as it was");
    assert_eq!(again, stopped);
}

#[test]
fn the_words_that_layouts_are_stored_as_are_understood() {
    for layout in [Layout::Translated, Layout::Source, Layout::Bilingual] {
        assert_eq!(parse_layout(layout_str(layout)), Some(layout));
    }
}

#[test]
fn a_blank_directory_is_none() {
    assert_eq!(browsed_dir(&None), None);
    assert_eq!(browsed_dir(&Some("  ".to_string())), None);
    assert_eq!(browsed_dir(&Some(" /a ".to_string())), Some("/a".to_string()));
}
