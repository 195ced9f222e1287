use std::path::Path;

use ryu_subtitles::library::{
    arrange, check_dir, contained, containment_roots, list_dir, roots, sidecar_output_path,
    source_text, validate_source, DirProbe, MediaPath, PathError, RawEntry, RootProbe,
    SourceProbe,
};

/// A path of Unix, taken apart.
fn path(text: &str) -> MediaPath {
    MediaPath::parse(text, '/')
}

/// The canonical form of an absolute path without links.
fn resolved(text: &str) -> String {
    let mut parts: Vec<&str> = Vec::new();
    for part in text.split('/') {
        match part {
            "" | "." => {}
            ".." => {
                parts.pop();
            }
            other => parts.push(other),
        }
    }
    format!("/{}", parts.join("/"))
}

const HOME: &str = "/home/ryu";

/// What looking a path up finds on a machine that has these files.
fn probe(files: &[&str], text: &str) -> SourceProbe {
    let canonical = source_text(text).map(|t| resolved(&t));
    let found = canonical.filter(|c| files.contains(&c.as_str()));
    SourceProbe {
        is_file: found.is_some(),
        canonical: found.map(|c| path(&c)),
        roots: vec![path(HOME), path("/home/ryu/.ryu")],
    }
}

fn raw(name: &str, is_dir: bool, size: u64) -> RawEntry {
    RawEntry {
        name: name.to_string(),
        path: format!("{HOME}/{name}"),
        is_dir,
        size,
        modified_ms: Some(7),
    }
}

#[test]
fn output_path_follows_the_player_convention() {
    let out = sidecar_output_path(&path("/films/The Film.mkv"), "es", "srt");
    assert_eq!(out, "/films/The Film.es.srt");
    let vtt = sidecar_output_path(&path("/films/The Film.mkv"), "zh-Hans", "vtt");
    assert_eq!(vtt, "/films/The Film.zh-Hans.vtt");
}

#[test]
fn output_path_survives_a_missing_language_code() {
    let out = sidecar_output_path(&path("/films/clip.mp4"), "  ", "srt");
    assert_eq!(out, "/films/clip.srt");
}

#[test]
fn a_path_outside_every_root_is_refused() {
    let err = validate_source("/etc/hosts", probe(&["/etc/hosts"], "/etc/hosts"))
        .expect_err("must refuse");
    assert!(matches!(err, PathError::OutsideRoots | PathError::NotMedia));
    assert_eq!(err, PathError::OutsideRoots);
}

#[test]
fn traversal_out_of_a_root_is_refused_after_canonicalization() {
    let escape = format!("{HOME}/../../../../etc/hosts");
    let err = validate_source(&escape, probe(&["/etc/hosts"], &escape)).expect_err("must refuse");
    assert!(matches!(err, PathError::OutsideRoots | PathError::NotMedia));
}

#[test]
fn a_non_media_file_inside_a_root_is_refused() {
    let text = format!("{HOME}/notes.txt");
    let result = validate_source(&text, probe(&[&text], &text));
    assert!(result.is_err());
    assert_eq!(result, Err(PathError::NotMedia));
}

#[test]
fn a_missing_path_is_missing_not_a_panic() {
    assert_eq!(
        validate_source("/nope/never/at/all.mp4", probe(&[], "/nope/never/at/all.mp4")),
        Err(PathError::Missing)
    );
    assert_eq!(validate_source("   ", probe(&[], "   ")), Err(PathError::Missing));
}

#[test]
fn a_media_file_under_home_validates_and_comes_back_canonical() {
    let file = format!("{HOME}/.ryu-subtitles-test/clip.wav");
    let validated = validate_source(&file, probe(&[&file], &file)).expect("should accept");
    assert!(Path::new(&validated.text).is_absolute());
    assert!(Path::new(&validated.text).ends_with("clip.wav"));

    let detour = format!("{HOME}/.ryu-subtitles-test/../.ryu-subtitles-test/clip.wav");
    assert_eq!(
        validate_source(&detour, probe(&[&file], &detour)).expect("accept detour"),
        validated
    );
}

#[test]
fn listing_hides_dotfiles_and_non_media_and_puts_directories_first() {
    let held = vec![
        raw("a.mp4", false, 1),
        raw("b.txt", false, 1),
        raw(".hidden.mp4", false, 1),
        raw("zzz-folder", true, 4096),
    ];
    let dir = DirProbe {
        canonical: Some(path("/home/ryu/.ryu-subtitles-list-test")),
        is_dir: true,
        roots: vec![path(HOME)],
    };
    let entries = list_dir(&dir, Some(held)).expect("list");
    let names: Vec<&str> = entries.iter().map(|e| e.name.as_str()).collect();
    assert_eq!(names, vec!["zzz-folder", "a.mp4"], "got {names:?}");
    assert!(entries[0].is_dir);
    assert_eq!(entries[0].size, None);
    assert_eq!(entries[1].size, Some(1));
    assert_eq!(entries[1].modified_ms, Some(7));
}

#[test]
fn listing_a_directory_outside_the_roots_is_refused() {
    let dir = DirProbe {
        canonical: Some(path("/etc")),
        is_dir: true,
        roots: vec![path(HOME)],
    };
    let err = list_dir(&dir, None).expect_err("must refuse");
    assert_eq!(err, PathError::OutsideRoots);
}

#[test]
fn a_directory_that_is_none_or_cannot_be_read_is_missing() {
    let gone = DirProbe {
        canonical: None,
        is_dir: false,
        roots: vec![path(HOME)],
    };
    assert_eq!(check_dir(&gone), Err(PathError::Missing));
    let file = DirProbe {
        canonical: Some(path("/home/ryu/a.mp4")),
        is_dir: false,
        roots: vec![path(HOME)],
    };
    assert_eq!(check_dir(&file), Err(PathError::Missing));
    let unreadable = DirProbe {
        canonical: Some(path("/home/ryu/films")),
        is_dir: true,
        roots: vec![path(HOME)],
    };
    assert_eq!(check_dir(&unreadable), Ok(()));
    assert_eq!(list_dir(&unreadable, None), Err(PathError::Missing));
}

#[test]
fn the_listing_is_sorted_without_regard_to_case() {
    let entries = arrange(&[
        raw("Beta.mp4", false, 1),
        raw("alpha.mp4", false, 1),
        raw("ÉTÉ.mp4", false, 1),
        raw("été 2.mp4", false, 1),
        raw("Zoo", true, 0),
        raw("apes", true, 0),
    ]);
    let names: Vec<&str> = entries.iter().map(|e| e.name.as_str()).collect();
    assert_eq!(
        names,
        vec!["apes", "Zoo", "alpha.mp4", "Beta.mp4", "été 2.mp4", "ÉTÉ.mp4"]
    );
}

#[test]
fn containment_goes_by_whole_components() {
    let roots = [path(HOME)];
    assert!(contained(&path("/home/ryu/films/a.mp4"), &roots));
    assert!(contained(&path(HOME), &roots));
    assert!(!contained(&path("/home/ryu2/a.mp4"), &roots));
    assert!(!contained(&path("/home"), &roots));
    assert!(!contained(&path("/home/ryu/a.mp4"), &[]));
}

#[test]
fn the_roots_that_exist_are_offered_in_order() {
    let found = RootProbe {
        movies: None,
        videos: Some("/home/ryu/Videos".to_string()),
        downloads: Some("/home/ryu/Downloads".to_string()),
        desktop: None,
        documents: None,
        clips: Some("/home/ryu/.ryu/clips".to_string()),
        home: Some(HOME.to_string()),
    };
    let rows: Vec<(String, String)> = roots(found).into_iter().map(|r| (r.name, r.path)).collect();
    let expected: Vec<(String, String)> = vec![
        ("Videos".to_string(), "/home/ryu/Videos".to_string()),
        ("Downloads".to_string(), "/home/ryu/Downloads".to_string()),
        ("Ryu clips".to_string(), "/home/ryu/.ryu/clips".to_string()),
        ("Home".to_string(), HOME.to_string()),
    ];
    assert_eq!(rows, expected);
}

#[test]
fn the_guard_admits_the_home_and_the_data_directory_alone() {
    assert_eq!(
        containment_roots(Some("/home/u".to_string()), "/home/u/.ryu".to_string()),
        vec!["/home/u", "/home/u/.ryu"]
    );
    assert_eq!(containment_roots(None, "/d".to_string()), vec!["/d"]);
}

#[test]
fn refusals_say_what_is_wrong() {
    assert_eq!(PathError::Missing.message(), "that file no longer exists");
    assert_eq!(
        PathError::NotMedia.message(),
        "that file is not a video or audio file this app can read"
    );
    assert!(PathError::OutsideRoots.message().contains("outside the folders"));
}
