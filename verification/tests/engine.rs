use ryu_subtitles::cues::{render, Cue, Format, Layout};
use ryu_subtitles::engine::{
    clock, data_output_path, data_output_paths, is_canceled, ready_text, transcribe_progress,
    transcribe_stage, transcript_is_target, Action, Run, Stage,
};
use ryu_subtitles::languages::find;
use ryu_subtitles::library::{MediaPath, SourceProbe};
use ryu_subtitles::store::{NewJob, Settings, Status, SubtitleStore, FULL};
use ryu_subtitles::stt::{TranscriptSegment, Transcription};

fn cue(text: &str) -> Cue {
    Cue {
        start_ms: 0,
        end_ms: 1_000,
        text: text.to_string(),
        translated: None,
    }
}

fn film() -> MediaPath {
    MediaPath::parse("/home/ryu/film.mkv", '/')
}

fn there() -> SourceProbe {
    SourceProbe {
        canonical: Some(film()),
        is_file: true,
        roots: vec![MediaPath::parse("/home/ryu", '/')],
    }
}

fn store_for(language: &str) -> SubtitleStore {
    let mut store = SubtitleStore::memory();
    let new = NewJob {
        source_path: "/home/ryu/film.mkv".into(),
        source_name: "film.mkv".into(),
        target_language: language.into(),
        format: Format::Srt,
        layout: Layout::Translated,
        engine: "whisper".into(),
        model: String::new(),
    };
    assert!(store.insert_job(new, "sub_1".to_string(), 1).is_some());
    store
}

fn run(store: &SubtitleStore) -> Run {
    Run::new(store.get_job("sub_1").expect("job"), film())
}

fn said(text: &str) -> Transcription {
    Transcription {
        text: text.to_string(),
        segments: vec![TranscriptSegment {
            start_ms: 1_000,
            end_ms: 3_000,
            text: text.to_string(),
        }],
    }
}

/// A run up to the point where everything was heard.
fn heard(store: &mut SubtitleStore, text: &str) -> Run {
    let mut run = run(store);
    assert_eq!(
        run.begin(store, 10),
        Action::LookUp("/home/ryu/film.mkv".to_string())
    );
    assert_eq!(run.found(there()), Action::NextWindow);
    assert_eq!(
        run.window(store, 60_000, 30_000, vec![1, 2, 3]),
        Action::Transcribe {
            wav: vec![1, 2, 3],
            filename: "window-0.wav".to_string(),
            engine: "whisper".to_string(),
        }
    );
    assert_eq!(run.transcribed(Ok(said(text))), Action::NextWindow);
    run
}

#[test]
fn clock_switches_to_hours_only_when_there_are_hours() {
    assert_eq!(clock(0), "0:00");
    assert_eq!(clock(65_000), "1:05");
    assert_eq!(clock(3_725_000), "1:02:05");
}

#[test]
fn english_latin_transcripts_skip_the_translation_pass() {
    let english = find("en").expect("en");
    let cues = vec![cue("the quick brown fox"), cue("jumps over the lazy dog")];
    assert!(transcript_is_target(&cues, &english));
}

#[test]
fn a_non_latin_transcript_is_never_assumed_to_be_english() {
    let english = find("en").expect("en");
    let cues = vec![cue("こんにちは、元気ですか"), cue("これはテストです")];
    assert!(!transcript_is_target(&cues, &english));
}

#[test]
fn a_non_english_target_always_translates() {
    let spanish = find("es").expect("es");
    let cues = vec![cue("the quick brown fox")];
    assert!(
        !transcript_is_target(&cues, &spanish),
        "an English transcript still needs translating into Spanish"
    );
}

#[test]
fn an_empty_transcript_does_not_short_circuit_translation() {
    let english = find("en").expect("en");
    assert!(!transcript_is_target(&[], &english));
    assert!(!transcript_is_target(&[cue("   ")], &english));
}

#[test]
fn data_output_paths_are_per_job_and_per_format() {
    let srt = data_output_path("sub_abc", "srt");
    let vtt = data_output_path("sub_abc", "vtt");
    assert!(srt.ends_with("subtitles/sub_abc.srt"));
    assert!(vtt.ends_with("subtitles/sub_abc.vtt"));
    assert_eq!(data_output_paths("sub_abc"), vec![srt, vtt]);
}

#[test]
fn a_deleted_job_reads_as_canceled_so_the_worker_stops() {
    let store = SubtitleStore::memory();
    assert!(is_canceled(&store, "sub_missing"));
}

#[test]
fn letters_decide_not_signs() {
    let english = find("en").expect("en");
    assert!(!transcript_is_target(&[cue("12345 !?")], &english));
    assert!(transcript_is_target(&[cue("12345 ok")], &english));
    // Nineteen of twenty letters are enough, eighteen are not.
    assert!(transcript_is_target(&[cue("aaaaaaaaaaaaaaaaaaaé")], &english));
    assert!(!transcript_is_target(&[cue("aaaaaaaaaaaaaaaaaaéé")], &english));
    // Only the first twenty cues count.
    let mut cues: Vec<Cue> = (0..20).map(|_| cue("plain")).collect();
    cues.push(cue("日本語のテキストがとても長い場合"));
    assert!(transcript_is_target(&cues, &english));
}

#[test]
fn progress_while_transcribing() {
    assert_eq!(transcribe_progress(0, Some(100_000)), 0);
    assert_eq!(transcribe_progress(50_000, Some(100_000)), 400_000);
    assert_eq!(transcribe_progress(200_000, Some(100_000)), 800_000);
    assert_eq!(transcribe_progress(5, Some(0)), 0);
    assert_eq!(transcribe_progress(5, None), 0);
    assert_eq!(
        transcribe_stage(65_000, Some(3_725_000)),
        "Transcribing 1:05 of 1:02:05"
    );
    assert_eq!(transcribe_stage(65_000, None), "Transcribing 1:05");
}

#[test]
fn a_run_goes_from_the_source_to_the_file() {
    let mut store = store_for("es");
    let mut run = heard(&mut store, "hello there");
    let asked = run.windows_done(&mut store, 20);
    match asked {
        Action::Ask { system, user } => {
            assert!(system.contains("Spanish"));
            assert_eq!(user, "1⟩ hello there");
        }
        other => panic!("unexpected {other:?}"),
    }
    assert_eq!(
        store.get_job("sub_1").expect("job").status,
        Status::Translating
    );
    let content = "1\n00:01:01,000 --> 00:01:03,000\nhola\n\n".to_string();
    assert_eq!(
        run.replied(&mut store, Some("1⟩ hola"), 30),
        Action::Write {
            path: "subtitles/sub_1.srt".to_string(),
            content: content.clone(),
        }
    );
    assert_eq!(
        render(&store.cues("sub_1"), Format::Srt, Layout::Translated),
        content
    );
    let writing = store.get_job("sub_1").expect("job");
    assert_eq!(writing.progress, 980_000);
    assert_eq!(writing.stage, "Writing the subtitle file");
    assert_eq!((writing.cue_count, writing.translated_count), (1, 1));
    assert_eq!(
        run.written(&mut store, 40),
        Action::Place {
            path: "/home/ryu/film.es.srt".to_string(),
            content,
        }
    );
    assert_eq!(
        run.placed(&mut store, true, 50),
        Action::Publish {
            output: Some("/home/ryu/film.es.srt".to_string())
        }
    );
    let done = store.get_job("sub_1").expect("job");
    assert_eq!(done.status, Status::Completed);
    assert_eq!(done.progress, FULL);
    assert_eq!(done.output_path.as_deref(), Some("/home/ryu/film.es.srt"));
    assert_eq!(run.stage, Stage::Over);
}

#[test]
fn a_read_only_disk_does_not_fail_the_job() {
    let mut store = store_for("en");
    let mut run = heard(&mut store, "hello there");
    assert!(matches!(run.windows_done(&mut store, 20), Action::Write { .. }));
    assert!(matches!(run.written(&mut store, 30), Action::Place { .. }));
    assert_eq!(
        run.placed(&mut store, false, 40),
        Action::Publish { output: None }
    );
    let done = store.get_job("sub_1").expect("job");
    assert_eq!(done.status, Status::Completed);
    assert_eq!(done.output_path, None);
}

#[test]
fn nothing_is_placed_beside_the_source_where_the_settings_say_so() {
    let mut store = store_for("en");
    let mut settings = Settings::default();
    settings.write_beside_source = false;
    store.save_settings(&settings);
    let mut run = heard(&mut store, "hello there");
    assert!(matches!(run.windows_done(&mut store, 20), Action::Write { .. }));
    assert_eq!(
        run.written(&mut store, 30),
        Action::Publish { output: None }
    );
}

#[test]
fn a_source_that_is_gone_fails_the_job() {
    let mut store = store_for("es");
    let mut run = run(&store);
    run.begin(&mut store, 10);
    let nothing = SourceProbe {
        canonical: None,
        is_file: false,
        roots: Vec::new(),
    };
    assert_eq!(
        run.found(nothing),
        Action::Fail("that file no longer exists".to_string())
    );
}

#[test]
fn a_language_that_is_not_known_fails_the_job() {
    let mut store = store_for("klingon");
    let mut run = run(&store);
    run.begin(&mut store, 10);
    assert_eq!(
        run.found(there()),
        Action::Fail("unknown target language `klingon`".to_string())
    );
}

#[test]
fn an_engine_that_fails_fails_the_job() {
    let mut store = store_for("es");
    let mut run = run(&store);
    run.begin(&mut store, 10);
    run.found(there());
    run.window(&store, 0, 30_000, Vec::new());
    assert_eq!(
        run.transcribed(Err("no engine".to_string())),
        Action::Fail("transcription failed: no engine".to_string())
    );
}

#[test]
fn a_run_that_failed_says_so_in_the_store() {
    let mut store = store_for("es");
    let mut broken = heard(&mut store, "hello there");
    assert!(matches!(broken.windows_done(&mut store, 20), Action::Ask { .. }));
    assert_eq!(
        broken.fail("disk full".to_string()),
        Action::Fail("disk full".to_string())
    );
    assert!(broken.failed(&mut store, "disk full", 30));
    assert_eq!(broken.stage, Stage::Over);
    let job = store.get_job("sub_1").expect("job");
    assert_eq!(job.status, Status::Failed);
    assert_eq!(job.error.as_deref(), Some("disk full"));
    assert_eq!((job.updated_at, job.completed_at), (30, Some(30)));
    assert_eq!(store.cues("sub_1").len(), 1, "the transcript is kept");
    assert!(!broken.failed(&mut store, "again", 40), "it is over already");

    let mut store = store_for("es");
    let mut canceled = run(&store);
    assert!(store.cancel_if_active_at("sub_1", "Cancelled.", 15));
    assert!(!canceled.failed(&mut store, "too late", 20));
    let job = store.get_job("sub_1").expect("job");
    assert_eq!((job.status, job.error.as_deref()), (Status::Canceled, Some("Cancelled.")));
}

#[test]
fn silence_fails_the_job() {
    let mut store = store_for("es");
    let mut run = heard(&mut store, "[BLANK_AUDIO]");
    assert_eq!(
        run.windows_done(&mut store, 20),
        Action::Fail("no speech was found in this file".to_string())
    );
}

#[test]
fn a_transcript_of_which_nothing_was_translated_completes_in_its_own_language() {
    let mut store = store_for("es");
    let mut run = heard(&mut store, "hello there");
    assert!(matches!(run.windows_done(&mut store, 20), Action::Ask { .. }));
    assert!(matches!(run.replied(&mut store, None, 30), Action::Ask { .. }));
    match run.replied(&mut store, None, 40) {
        Action::Write { content, .. } => assert!(content.contains("hello there")),
        other => panic!("unexpected {other:?}"),
    }
    assert!(!matches!(run.written(&mut store, 50), Action::Fail(_) | Action::Discard));
    let job = store.get_job("sub_1").expect("job");
    assert_eq!(job.status, Status::Completed);
    assert_eq!((job.cue_count, job.translated_count), (1, 0));
    assert_eq!(store.cues("sub_1")[0].text, "hello there");
}

#[test]
fn a_line_that_is_not_translated_does_not_fail_the_job() {
    let mut store = store_for("es");
    let mut run = heard(&mut store, "hello there");
    run.window(&store, 90_000, 30_000, Vec::new());
    assert_eq!(run.transcribed(Ok(said("good bye"))), Action::NextWindow);
    assert!(matches!(run.windows_done(&mut store, 20), Action::Ask { .. }));
    match run.replied(&mut store, Some("2⟩ adios"), 30) {
        Action::Ask { user, .. } => assert_eq!(user, "1⟩ hello there"),
        other => panic!("unexpected {other:?}"),
    }
    match run.replied(&mut store, None, 40) {
        Action::Write { content, .. } => {
            assert!(content.contains("hello there") && content.contains("adios"));
        }
        other => panic!("unexpected {other:?}"),
    }
    let job = store.get_job("sub_1").expect("job");
    assert_eq!((job.cue_count, job.translated_count), (2, 1));
}

#[test]
fn cancellation_stops_a_run_at_the_next_window() {
    let mut store = store_for("es");
    let mut run = run(&store);
    run.begin(&mut store, 10);
    run.found(there());
    assert!(store.cancel_if_active_at("sub_1", "Cancelled.", 15));
    assert_eq!(run.window(&store, 0, 30_000, Vec::new()), Action::Stop);
    assert_eq!(run.stage, Stage::Over);
}

#[test]
fn cancellation_that_wins_late_discards_the_file() {
    let mut store = store_for("en");
    let mut run = heard(&mut store, "hello there");
    assert!(matches!(run.windows_done(&mut store, 20), Action::Write { .. }));
    assert!(store.cancel_if_active_at("sub_1", "Cancelled.", 25));
    assert_eq!(run.written(&mut store, 30), Action::Discard);
    assert_eq!(store.get_job("sub_1").expect("job").status, Status::Canceled);
}

#[test]
fn a_job_that_is_no_longer_waiting_is_not_run() {
    let mut store = store_for("es");
    assert!(store.cancel_if_active_at("sub_1", "Cancelled.", 5));
    let mut run = run(&store);
    assert_eq!(run.begin(&mut store, 10), Action::Stop);
}

#[test]
fn a_run_may_give_up() {
    let store = store_for("es");
    let mut run = run(&store);
    assert_eq!(run.fail("boom".to_string()), Action::Fail("boom".to_string()));
    assert_eq!(run.stage, Stage::Over);
}

#[test]
fn what_is_said_when_a_job_is_done() {
    assert_eq!(ready_text("film.mkv", 12, "srt"), "film.mkv — 12 cues in srt");
}
