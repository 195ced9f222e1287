use ryu_subtitles::cues::{Cue, Format, Layout};
use ryu_subtitles::store::{
    layout_str, now, parse_layout, row_to_job, Job, NewJob, Settings, Status, StoredRow,
    SubtitleStore, FULL,
};

fn new_job(name: &str) -> NewJob {
    NewJob {
        source_path: format!("/movies/{name}.mp4"),
        source_name: format!("{name}.mp4"),
        target_language: "es".to_string(),
        format: Format::Srt,
        layout: Layout::Translated,
        engine: "whisper".to_string(),
        model: String::new(),
    }
}

fn cue(start_ms: u64, text: &str, translated: Option<&str>) -> Cue {
    Cue {
        start_ms,
        end_ms: start_ms + 1_000,
        text: text.to_string(),
        translated: translated.map(std::string::ToString::to_string),
    }
}

fn stored(id: &str, status: &str) -> StoredRow {
    StoredRow {
        id: id.to_string(),
        source_path: "/movies/film.mp4".to_string(),
        source_name: "film.mp4".to_string(),
        target_language: "es".to_string(),
        format: "vtt".to_string(),
        layout: "bilingual".to_string(),
        status: status.to_string(),
        progress: 400_000,
        stage: "Transcribing".to_string(),
        error: None,
        duration_ms: Some(-5),
        cue_count: -1,
        translated_count: 3,
        engine: "whisper".to_string(),
        model: String::new(),
        output_path: None,
        created_at: 10,
        updated_at: 20,
        completed_at: None,
    }
}

fn job(store: &SubtitleStore, id: &str) -> Job {
    store.get_job(id).expect("present")
}

#[test]
fn a_new_job_starts_queued_at_zero() {
    let mut store = SubtitleStore::memory();
    let job = store.create_job(new_job("film")).expect("create");
    assert_eq!(job.status, Status::Queued);
    assert_eq!(job.progress, 0);
    assert!(job.id.starts_with("sub_"));

    let loaded = store.get_job(&job.id).expect("present");
    assert_eq!(loaded.source_name, "film.mp4");
    assert_eq!(loaded.target_language, "es");
}

#[test]
fn jobs_list_newest_first_and_respect_the_limit() {
    let mut store = SubtitleStore::memory();
    for i in 0..3 {
        store.create_job(new_job(&format!("f{i}"))).expect("create");
    }
    let all = store.list_jobs(10);
    assert_eq!(all.len(), 3);
    assert_eq!(all[0].source_name, "f2.mp4");
    assert_eq!(store.list_jobs(1).len(), 1);
}

#[test]
fn progress_is_clamped_and_duration_is_sticky() {
    let mut store = SubtitleStore::memory();
    let id = store.create_job(new_job("film")).expect("create").id;
    store.set_progress(&id, 5 * FULL, "Transcribing", Some(120_000));
    let loaded = job(&store, &id);
    assert_eq!(loaded.progress, FULL, "progress must never exceed 1.0");
    assert_eq!(loaded.duration_ms, Some(120_000));

    // A later update without a duration must not erase the one we know.
    store.set_progress(&id, FULL / 2, "Translating", None);
    let loaded = job(&store, &id);
    assert_eq!(loaded.duration_ms, Some(120_000));
    assert_eq!(loaded.progress, FULL / 2);
    assert_eq!(loaded.stage, "Translating");
}

#[test]
fn cues_round_trip_and_drive_the_counts() {
    let mut store = SubtitleStore::memory();
    let id = store.create_job(new_job("film")).expect("create").id;
    let cues = vec![cue(0, "hello", Some("hola")), cue(2_000, "goodbye", None)];
    store.set_cues(&id, &cues);

    let loaded = job(&store, &id);
    assert_eq!(loaded.cue_count, 2);
    assert_eq!(loaded.translated_count, 1, "only one cue was translated");
    assert_eq!(store.cues(&id), cues);
}

#[test]
fn terminal_status_stamps_completed_at_once() {
    let mut store = SubtitleStore::memory();
    let id = store.create_job(new_job("film")).expect("create").id;
    store.set_status(&id, Status::Completed, None);
    let first = job(&store, &id);
    assert!(first.completed_at.is_some());

    store.set_status(&id, Status::Failed, Some("boom"));
    let second = job(&store, &id);
    assert_eq!(
        second.completed_at, first.completed_at,
        "stamp must not move"
    );
    assert_eq!(second.error.as_deref(), Some("boom"));
}

#[test]
fn canceled_or_deleted_jobs_reject_every_late_worker_transition() {
    let mut store = SubtitleStore::memory();
    let canceled = store.create_job(new_job("canceled")).expect("create");
    assert!(store.cancel_if_active(&canceled.id, "Cancelled."));

    assert!(!store.set_status_if_active(&canceled.id, Status::Translating, None));
    store.set_progress(&canceled.id, FULL, "Done", None);
    store.set_cues(&canceled.id, &[cue(0, "late", Some("tarde"))]);
    assert!(!store.complete_if_active(&canceled.id));

    let after = job(&store, &canceled.id);
    assert_eq!(after.status, Status::Canceled);
    assert_eq!(after.stage, "Queued");
    assert_eq!(after.progress, 0);
    assert_eq!(after.error.as_deref(), Some("Cancelled."));
    assert!(store.cues(&canceled.id).is_empty());

    let deleted = store.create_job(new_job("deleted")).expect("create");
    assert!(store.delete_job(&deleted.id));
    assert!(!store.complete_if_active(&deleted.id));
}

#[test]
fn requeue_clears_the_previous_outcome() {
    let mut store = SubtitleStore::memory();
    let id = store.create_job(new_job("film")).expect("create").id;
    store.set_cues(&id, &[cue(0, "hi", Some("hola"))]);
    store.set_status(&id, Status::Failed, Some("boom"));

    store.requeue(&id);
    let loaded = job(&store, &id);
    assert_eq!(loaded.status, Status::Queued);
    assert_eq!(loaded.cue_count, 0);
    assert!(loaded.error.is_none());
    assert!(loaded.completed_at.is_none());
    assert!(store.cues(&id).is_empty());
}

#[test]
fn next_queued_is_oldest_first_and_skips_running_jobs() {
    let mut store = SubtitleStore::memory();
    let first = store.create_job(new_job("first")).expect("create");
    let second = store.create_job(new_job("second")).expect("create");

    assert_eq!(store.next_queued().map(|j| j.id), Some(first.id.clone()));
    store.set_status(&first.id, Status::Transcribing, None);
    assert_eq!(store.next_queued().map(|j| j.id), Some(second.id));
}

#[test]
fn a_restart_cancels_jobs_that_claimed_to_be_running() {
    let mut store = SubtitleStore::memory();
    let running = store.create_job(new_job("running")).expect("create");
    let queued = store.create_job(new_job("queued")).expect("create");
    store.set_status(&running.id, Status::Transcribing, None);

    assert_eq!(store.reset_interrupted(), 1);
    let after = job(&store, &running.id);
    assert_eq!(after.status, Status::Canceled);
    assert!(after.error.is_some());
    // A queued job was never running, so it stays queued and still gets worked.
    assert_eq!(job(&store, &queued.id).status, Status::Queued);
}

#[test]
fn settings_default_until_saved_then_round_trip() {
    let mut store = SubtitleStore::memory();
    let defaults = store.settings();
    assert_eq!(defaults.engine, "whisper");
    assert!(defaults.write_beside_source);

    let saved = Settings {
        target_language: "ja".into(),
        format: Format::Vtt,
        layout: Layout::Bilingual,
        engine: "whisper".into(),
        model: "qwen3-4b".into(),
        write_beside_source: false,
    };
    store.save_settings(&saved);
    let loaded = store.settings();
    assert_eq!(loaded.target_language, "ja");
    assert_eq!(loaded.format, Format::Vtt);
    assert_eq!(loaded.layout, Layout::Bilingual);
    assert!(!loaded.write_beside_source);
    assert_eq!(loaded, saved);
}

#[test]
fn re_rendering_options_do_not_touch_the_cues() {
    let mut store = SubtitleStore::memory();
    let id = store.create_job(new_job("film")).expect("create").id;
    let cues = vec![cue(0, "hello", Some("hola"))];
    store.set_cues(&id, &cues);

    store.set_render_options(&id, Format::Vtt, Layout::Bilingual);
    let loaded = job(&store, &id);
    assert_eq!(loaded.format, Format::Vtt);
    assert_eq!(loaded.layout, Layout::Bilingual);
    assert_eq!(store.cues(&id), cues);
}

#[test]
fn deleting_is_idempotent_from_the_callers_point_of_view() {
    let mut store = SubtitleStore::memory();
    let id = store.create_job(new_job("film")).expect("create").id;
    assert!(store.delete_job(&id));
    assert!(!store.delete_job(&id));
    assert!(store.get_job(&id).is_none());
}

#[test]
fn words_read_back() {
    for status in [
        Status::Queued,
        Status::Transcribing,
        Status::Translating,
        Status::Completed,
        Status::Failed,
        Status::Canceled,
    ] {
        assert_eq!(Status::parse(status.as_str()), status);
    }
    assert_eq!(Status::parse("nonsense"), Status::Queued);
    assert_eq!(Status::Canceled.as_str(), "canceled");
    assert!(Status::Failed.is_terminal());
    assert!(!Status::Translating.is_terminal());
    for layout in [Layout::Translated, Layout::Source, Layout::Bilingual] {
        assert_eq!(parse_layout(layout_str(layout)), layout);
    }
    assert_eq!(parse_layout("sideways"), Layout::Translated);
}

#[test]
fn ids_are_drawn_anew_and_jobs_are_counted() {
    let mut store = SubtitleStore::memory();
    let a = store.create_job(new_job("a")).expect("create");
    let b = store.create_job(new_job("b")).expect("create");
    assert_ne!(a.id, b.id);
    assert_eq!(a.id.len(), "sub_".len() + 32);
    assert!(a.id["sub_".len()..].chars().all(|c| c.is_ascii_hexdigit()));
    assert_eq!(store.job_count(), 2);
}

#[test]
fn the_clock_is_past_the_year_2020_and_does_not_stand_still() {
    let first = now();
    assert!(first > 1_577_836_800_000);
    let mut later = first;
    for _ in 0..100_000_000u64 {
        later = now();
        if later > first {
            break;
        }
    }
    assert!(later > first);
}

#[test]
fn a_taken_id_is_refused() {
    let mut store = SubtitleStore::memory();
    assert!(store.insert_job(new_job("a"), "sub_1".to_string(), 5).is_some());
    assert!(store.insert_job(new_job("b"), "sub_1".to_string(), 6).is_none());
    assert_eq!(store.job_count(), 1);
    let made = job(&store, "sub_1");
    assert_eq!((made.created_at, made.updated_at), (5, 5));
    assert_eq!(made.stage, "Queued");
    assert_eq!(made.source_path, "/movies/a.mp4");
}

#[test]
fn order_follows_the_time_of_creation() {
    let mut store = SubtitleStore::memory();
    store.insert_job(new_job("late"), "sub_l".to_string(), 30);
    store.insert_job(new_job("early"), "sub_e".to_string(), 10);
    store.insert_job(new_job("middle"), "sub_m".to_string(), 20);
    let ids: Vec<String> = store.list_jobs(2).into_iter().map(|j| j.id).collect();
    assert_eq!(ids, vec!["sub_l", "sub_m"]);
    assert_eq!(store.next_queued().map(|j| j.id), Some("sub_e".to_string()));
}

#[test]
fn a_row_is_read_leniently() {
    let job = row_to_job(stored("sub_1", "completed"));
    assert_eq!(job.status, Status::Completed);
    assert_eq!(job.format, Format::Vtt);
    assert_eq!(job.layout, Layout::Bilingual);
    assert_eq!(job.duration_ms, Some(0));
    assert_eq!(job.cue_count, 0);
    assert_eq!(job.translated_count, 3);
    let mut odd = stored("sub_2", "odd");
    odd.format = "ass".to_string();
    odd.layout = "odd".to_string();
    let job = row_to_job(odd);
    assert_eq!(
        (job.status, job.format, job.layout),
        (Status::Queued, Format::Srt, Layout::Translated)
    );
}

#[test]
fn rows_are_restored_once() {
    let mut store = SubtitleStore::memory();
    let cues = vec![cue(0, "hello", None)];
    assert!(store.restore(stored("sub_1", "transcribing"), cues.clone()));
    assert!(!store.restore(stored("sub_1", "queued"), Vec::new()));
    assert_eq!(store.cues("sub_1"), cues);
    assert_eq!(store.reset_interrupted_at(99), 1);
    let after = job(&store, "sub_1");
    assert_eq!(after.status, Status::Canceled);
    assert_eq!(after.updated_at, 99);
    assert_eq!(after.completed_at, None);
    assert_eq!(after.stage, "Interrupted by a restart");
}

#[test]
fn other_jobs_are_left_alone() {
    let mut store = SubtitleStore::memory();
    store.insert_job(new_job("a"), "sub_a".to_string(), 1);
    store.insert_job(new_job("b"), "sub_b".to_string(), 2);
    let before = job(&store, "sub_b");
    store.set_status_at("sub_a", Status::Transcribing, None, 10);
    store.set_progress_at("sub_a", 5, "x", Some(7), 11);
    store.set_cues_at("sub_a", &[cue(0, "hi", None)], 12);
    store.set_output_path_at("sub_a", Some("/x.srt"), 13);
    assert!(store.complete_if_active_at("sub_a", 14));
    store.requeue_at("sub_a", 15);
    assert_eq!(job(&store, "sub_b"), before);
}

#[test]
fn completion_fills_the_bar_and_clears_the_error() {
    let mut store = SubtitleStore::memory();
    store.insert_job(new_job("a"), "sub_a".to_string(), 1);
    assert!(store.set_status_if_active_at("sub_a", Status::Transcribing, None, 2));
    assert!(store.complete_if_active_at("sub_a", 3));
    let done = job(&store, "sub_a");
    assert_eq!(done.status, Status::Completed);
    assert_eq!(done.progress, FULL);
    assert_eq!(done.stage, "Done");
    assert_eq!(done.error, None);
    assert_eq!(done.completed_at, Some(3));
    assert!(!store.cancel_if_active_at("sub_a", "too late", 4));
    assert_eq!(job(&store, "sub_a"), done);
    store.set_output_path("sub_a", Some("/movies/a.es.srt"));
    assert_eq!(job(&store, "sub_a").output_path.as_deref(), Some("/movies/a.es.srt"));
    store.set_output_path("sub_a", None);
    assert_eq!(job(&store, "sub_a").output_path, None);
}
