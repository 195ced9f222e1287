use std::path::Path;

use ryu_subtitles::library::{sidecar_output_path, MediaPath};
use ryu_subtitles::paths::{components_of, extension_of, stem_of, stripped_of};

fn chars(s: &str) -> Vec<char> {
    s.chars().collect()
}

const PATHS: [&str; 30] = [
    "",
    "/",
    "//",
    ".",
    "..",
    "/..",
    "/.",
    "./a.mkv",
    "../a.mkv",
    "a",
    "a.mkv",
    ".hidden",
    ".hidden.mkv",
    "name.",
    "..x",
    "...",
    "/a",
    "//a",
    "/a/",
    "/a/.",
    "/a/./",
    "/a/..",
    "/home/ryu/film.mkv",
    "/home/ryu/film.mkv/",
    "/home/ryu/film.mkv/.",
    "/home//ryu//film.en.mkv",
    "/home/./ryu/./film.mkv",
    "home/ryu/film",
    "/Filme/Überraschung.MKV",
    "/home/ryu/.config/x",
];

#[test]
fn paths_come_apart_as_the_system_takes_them_apart() {
    for whole in PATHS {
        let p = Path::new(whole);
        let parts = MediaPath::parse(whole, '/');
        let components: Vec<String> = p
            .components()
            .map(|c| c.as_os_str().to_string_lossy().into_owned())
            .collect();
        assert_eq!(parts.text, whole);
        assert_eq!(parts.components, components, "components of {whole}");
        assert_eq!(parts.name, p.file_name().map(|n| n.to_string_lossy().into_owned()), "name of {whole}");
        assert_eq!(parts.stem, p.file_stem().map(|n| n.to_string_lossy().into_owned()), "stem of {whole}");
        assert_eq!(parts.extension, p.extension().map(|n| n.to_string_lossy().into_owned()), "extension of {whole}");
        assert_eq!(
            format!("{}x", parts.directory),
            p.with_file_name("x").to_string_lossy(),
            "directory of {whole}"
        );
    }
}

#[test]
fn another_separator_is_as_good() {
    let parts = MediaPath::parse("C:\\films\\a.mkv", '\\');
    assert_eq!(parts.directory, "C:\\films\\");
    assert_eq!(parts.name.as_deref(), Some("a.mkv"));
    assert_eq!(parts.components, vec!["C:", "films", "a.mkv"]);
}

#[test]
fn a_path_comes_apart_where_it_was_put_together() {
    for directory in ["", "/", "films/", "/home/ryu/"] {
        let whole = format!("{directory}a.mkv");
        let parts = MediaPath::parse(&whole, '/');
        assert_eq!(parts.directory, directory);
        assert_eq!(parts.name.as_deref(), Some("a.mkv"));
        let mut components = MediaPath::parse(directory, '/').components;
        components.push("a.mkv".to_string());
        assert_eq!(parts.components, components);
    }
}

#[test]
fn a_sidecar_lies_beside_its_source() {
    let source = MediaPath::parse("/home/ryu/film.mkv", '/');
    let placed = sidecar_output_path(&source, "es", "srt");
    assert_eq!(placed, "/home/ryu/film.es.srt");
    let placed = MediaPath::parse(&placed, '/');
    assert_eq!(placed.directory, source.directory);
    assert_eq!(placed.components.len(), source.components.len());
}

#[test]
fn stems_and_extensions_make_up_a_name() {
    let s = |v: Vec<char>| v.into_iter().collect::<String>();
    assert_eq!(s(stem_of(&chars("film.en.srt"))), "film.en");
    assert_eq!(extension_of(&chars("film.en.srt")).map(s), Some("srt".to_string()));
    assert_eq!(s(stem_of(&chars(".srt"))), ".srt");
    assert_eq!(extension_of(&chars(".srt")), None);
    assert_eq!(extension_of(&chars("film")), None);
}

#[test]
fn what_leads_nowhere_is_stripped() {
    let strip = |p: &str| stripped_of(&chars(p), '/').iter().collect::<String>();
    assert_eq!(strip("/a/./"), "/a");
    assert_eq!(strip("//"), "/");
    assert_eq!(strip("./"), ".");
    assert_eq!(strip("a/.."), "a/..");
    assert_eq!(components_of(&chars("/a/./"), '/'), vec![chars("/"), chars("a")]);
}
