//! Picking the video: the browsable roots, the directory listing, and the path guard.
//!
//! A job carries a path, so the guard is the boundary. It is a canonicalize-then-contain
//! check, not a string check: the path is resolved first, then it must be a file, then it
//! must sit under one of the roots, and then its extension must be that of media. All of
//! them, in that order.

use crate::media;
use crate::order;
use crate::paths;
use crate::text;
use vstd::prelude::*;

verus! {

/// A path, taken apart.
#[derive(Debug, Clone, PartialEq, Eq)]
pub struct MediaPath {
    /// The whole path.
    pub text: String,
    /// The path up to and with the separator in front of the file name.
    pub directory: String,
    /// The file name.
    pub name: Option<String>,
    /// The file name up to its last dot.
    pub stem: Option<String>,
    /// The file name from its last dot on.
    pub extension: Option<String>,
    /// Every component of the path, from the root on.
    pub components: Vec<String>,
}

/// A path as a mathematical value.
#[verifier::ext_equal]
pub struct PathView {
    pub text: Seq<char>,
    pub directory: Seq<char>,
    pub name: Option<Seq<char>>,
    pub stem: Option<Seq<char>>,
    pub extension: Option<Seq<char>>,
    pub components: Seq<Seq<char>>,
}

impl View for MediaPath {
    type V = PathView;

    open spec fn view(&self) -> PathView {
        PathView {
            text: self.text@,
            directory: self.directory@,
            name: text::opt(self.name),
            stem: text::opt(self.stem),
            extension: text::opt(self.extension),
            components: text::strings(self.components@),
        }
    }
}

/// The parts of the path `whole`.
pub open spec fn taken_apart(whole: Seq<char>, sep: char) -> PathView {
    let name = paths::file_name(whole, sep);
    PathView {
        text: whole,
        directory: paths::directory(whole, sep),
        name,
        stem: match name {
            Some(n) => Some(paths::stem(n)),
            None => None,
        },
        extension: match name {
            Some(n) => paths::extension(n),
            None => None,
        },
        components: paths::components(whole, sep),
    }
}

impl MediaPath {
    /// The parts of the path belong together.
    pub open spec fn wf(&self, sep: char) -> bool {
        self@ == taken_apart(self@.text, sep)
    }

    /// Takes a path apart, given the character that separates its components.
    pub fn parse(whole: &str, sep: char) -> (r: MediaPath)
        ensures
            r@ == taken_apart(whole@, sep),
            r.wf(sep),
    {
        let cs = text::chars_of(whole);
        let (name, stem, extension) = match paths::file_name_of(cs.as_slice(), sep) {
            Some(n) => (
                Some(text::string_of(n.as_slice())),
                Some(text::string_of(paths::stem_of(n.as_slice()).as_slice())),
                match paths::extension_of(n.as_slice()) {
                    Some(e) => Some(text::string_of(e.as_slice())),
                    None => None,
                },
            ),
            None => (None, None, None),
        };
        let directory = paths::directory_of(cs.as_slice(), sep);
        let components = paths::components_of(cs.as_slice(), sep);
        MediaPath {
            text: text::string_of(cs.as_slice()),
            directory: text::string_of(directory.as_slice()),
            name,
            stem,
            extension,
            components: text::strings_of(components.as_slice()),
        }
    }

    /// Whether the path sits under `root`: every component of the root is the component of
    /// the path at the same place.
    pub fn starts_with(&self, root: &MediaPath) -> (r: bool)
        ensures
            r == root@.components.is_prefix_of(self@.components),
    {
        if root.components.len() > self.components.len() {
            return false;
        }
        let mut i: usize = 0;
        while i < root.components.len()
            invariant
                i <= root.components@.len() <= self.components@.len(),
                forall|j: int|
                    0 <= j < i ==> #[trigger] root@.components[j] == self@.components[j],
            decreases root.components@.len() - i,
        {
            assert(root@.components[i as int] == root.components@[i as int]@);
            assert(self@.components[i as int] == self.components@[i as int]@);
            if !text::same_text(&root.components[i], &self.components[i]) {
                assert(root@.components[i as int] != self@.components.subrange(
                    0,
                    root@.components.len() as int,
                )[i as int]);
                return false;
            }
            i += 1;
        }
        assert(root@.components =~= self@.components.subrange(
            0,
            root@.components.len() as int,
        ));
        true
    }
}

/// The paths of a list as mathematical values.
pub open spec fn path_views(paths: Seq<MediaPath>) -> Seq<PathView> {
    paths.map_values(|p: MediaPath| p@)
}

/// Whether `candidate` sits under one of `roots`.
pub open spec fn under(candidate: PathView, roots: Seq<PathView>) -> bool {
    exists|i: int|
        0 <= i < roots.len() && (#[trigger] roots[i]).components.is_prefix_of(candidate.components)
}

/// Whether `candidate`, already canonical, sits under one of `roots`, canonical too.
pub fn contained(candidate: &MediaPath, roots: &[MediaPath]) -> (r: bool)
    ensures
        r == under(candidate@, path_views(roots@)),
{
    let mut i: usize = 0;
    while i < roots.len()
        invariant
            i <= roots@.len(),
            forall|j: int|
                0 <= j < i ==> !(#[trigger] path_views(roots@)[j]).components.is_prefix_of(
                    candidate@.components,
                ),
        decreases roots@.len() - i,
    {
        assert(path_views(roots@)[i as int] == roots@[i as int]@);
        if candidate.starts_with(&roots[i]) {
            return true;
        }
        i += 1;
    }
    false
}

/// Why a path was refused.
#[derive(Debug, Clone, Copy, PartialEq, Eq, Structural)]
pub enum PathError {
    /// Outside every browsable root.
    OutsideRoots,
    /// Does not exist, or is not readable.
    Missing,
    /// Exists, but is not a file that is decoded.
    NotMedia,
}

impl PathError {
    /// The sentence shown to the user.
    pub open spec fn text(self) -> Seq<char> {
        match self {
            PathError::OutsideRoots => "that path is outside the folders this app can read (your home folder and the Ryu data folder)"@,
            PathError::Missing => "that file no longer exists"@,
            PathError::NotMedia => "that file is not a video or audio file this app can read"@,
        }
    }

    /// The sentence shown to the user.
    pub fn message(&self) -> (r: &'static str)
        ensures
            r@ == self.text(),
    {
        match self {
            PathError::OutsideRoots => "that path is outside the folders this app can read (your home folder and the Ryu data folder)",
            PathError::Missing => "that file no longer exists",
            PathError::NotMedia => "that file is not a video or audio file this app can read",
        }
    }
}

/// What looking a source path up found: where it leads once `..` and links are resolved,
/// whether that is a file, and the canonical roots.
#[derive(Debug, Clone, PartialEq, Eq)]
pub struct SourceProbe {
    pub canonical: Option<MediaPath>,
    pub is_file: bool,
    pub roots: Vec<MediaPath>,
}

/// The string that is looked up for a path from a request, if there is anything to look up.
pub fn source_text(path: &str) -> (r: Option<String>)
    ensures
        text::opt(r) == if text::trim(path@).len() == 0 {
            None
        } else {
            Some(text::trim(path@))
        },
{
    let t = text::trimmed(path);
    if t.len() == 0 {
        None
    } else {
        Some(text::string_of(t.as_slice()))
    }
}

/// The verdict of the guard, in the order of its checks: there is a path, it resolves, it is
/// a file, it is under a root, it is media.
pub open spec fn guard(
    path: Seq<char>,
    canonical: Option<PathView>,
    is_file: bool,
    roots: Seq<PathView>,
) -> Result<PathView, PathError> {
    match canonical {
        Some(c) if text::trim(path).len() > 0 && is_file => if !under(c, roots) {
            Err(PathError::OutsideRoots)
        } else if !media::attempted(c.extension) {
            Err(PathError::NotMedia)
        } else {
            Ok(c)
        },
        _ => Err(PathError::Missing),
    }
}

/// The canonical path of a probe as a mathematical value.
pub open spec fn opt_path(p: Option<MediaPath>) -> Option<PathView> {
    match p {
        Some(c) => Some(c@),
        None => None,
    }
}

/// Checks a path that a job wants to transcribe, given what looking it up found. Returns the
/// canonical path, which is what is stored: a job records the file it actually read.
pub fn validate_source(path: &str, probe: SourceProbe) -> (r: Result<MediaPath, PathError>)
    ensures
        match (r, guard(path@, opt_path(probe.canonical), probe.is_file, path_views(probe.roots@))) {
            (Ok(p), Ok(v)) => p@ == v,
            (Err(e), Err(f)) => e == f,
            _ => false,
        },
{
    if text::trimmed(path).len() == 0 {
        return Err(PathError::Missing);
    }
    match probe.canonical {
        None => Err(PathError::Missing),
        Some(canonical) => {
            if !probe.is_file {
                Err(PathError::Missing)
            } else if !contained(&canonical, probe.roots.as_slice()) {
                Err(PathError::OutsideRoots)
            } else if !media::is_media_path(&canonical) {
                Err(PathError::NotMedia)
            } else {
                Ok(canonical)
            }
        },
    }
}

/// Nothing outside the roots, nothing that is not media and nothing that is not a file is
/// ever accepted, and what is accepted is the path that was resolved.
pub proof fn the_guard_is_closed(
    path: Seq<char>,
    canonical: Option<PathView>,
    is_file: bool,
    roots: Seq<PathView>,
)
    ensures
        guard(path, canonical, is_file, roots) matches Ok(p) ==> {
            &&& canonical == Some(p)
            &&& is_file
            &&& under(p, roots)
            &&& media::attempted(p.extension)
        },
        roots.len() == 0 ==> guard(path, canonical, is_file, roots) is Err,
{
}

/// The name of the subtitle file of a video: its stem, the language, and the extension of
/// the format.
pub open spec fn sidecar_name(
    stem: Option<Seq<char>>,
    language: Seq<char>,
    extension: Seq<char>,
) -> Seq<char> {
    let base = match stem {
        Some(s) => s,
        None => "subtitles"@,
    };
    let code = text::trim(language);
    if code.len() == 0 {
        base + seq!['.'] + extension
    } else {
        base + seq!['.'] + code + seq!['.'] + extension
    }
}

/// Where a finished subtitle file is written beside its source. The name is the convention
/// by which players load a track and label it with its language.
#[must_use]
pub fn sidecar_output_path(source: &MediaPath, language_code: &str, extension: &str) -> (r: String)
    ensures
        r@ == source@.directory + sidecar_name(source@.stem, language_code@, extension@),
{
    let mut out = text::chars_of(&source.directory);
    match &source.stem {
        Some(s) => text::append_str(&mut out, s),
        None => text::append_str(&mut out, "subtitles"),
    }
    out.push('.');
    let code = text::trimmed(language_code);
    if code.len() > 0 {
        text::append(&mut out, code.as_slice());
        out.push('.');
    }
    text::append_str(&mut out, extension);
    assert(out@ =~= source@.directory + sidecar_name(source@.stem, language_code@, extension@));
    text::string_of(out.as_slice())
}

/// The subtitle file of a video lies in the directory of the video, under a name of its own.
pub proof fn a_sidecar_lies_beside_its_source(
    d: Seq<char>,
    name: Seq<char>,
    language: Seq<char>,
    extension: Seq<char>,
    sep: char,
)
    requires
        paths::plain_directory(d, sep),
        paths::names(name),
        paths::without(name, sep),
        paths::without(language, sep),
        paths::without(extension, sep),
        extension.len() > 0,
        sep != '.',
    ensures
        ({
            let source = taken_apart(d + name, sep);
            let beside = sidecar_name(source.stem, language, extension);
            let placed = taken_apart(source.directory + beside, sep);
            &&& source.directory == d
            &&& source.name == Some(name)
            &&& placed.directory == d
            &&& placed.name == Some(beside)
            &&& placed.components == source.components.drop_last().push(beside)
        }),
{
    let source = taken_apart(d + name, sep);
    let base = paths::stem(name);
    let beside = sidecar_name(source.stem, language, extension);
    let code = text::trim(language);
    paths::a_path_comes_apart(d, name, sep);
    paths::a_stem_is_part_of_the_name(name, sep);
    assert(paths::without(code, sep)) by {
        let back = text::trim_start(language);
        text::lemma_trim_start(language);
        text::lemma_trim_end(back);
        assert forall|i: int| 0 <= i < code.len() implies #[trigger] code[i] != sep by {
            assert(code[i] == back[i]);
            assert(back[i] == language[i + language.len() - back.len()]);
        }
    }
    reveal_strlit(".");
    reveal_strlit("..");
    assert(paths::without(beside, sep)) by {
        assert forall|i: int| 0 <= i < beside.len() implies #[trigger] beside[i] != sep by {
            if i < base.len() {
                assert(beside[i] == base[i]);
            } else if code.len() > 0 && base.len() < i <= base.len() + code.len() {
                assert(beside[i] == code[i - base.len() - 1]);
            } else if i > base.len() && beside[i] != '.' {
                let at = i - (beside.len() - extension.len());
                assert(beside[i] == extension[at]);
            }
        }
    }
    paths::a_path_comes_apart(d, beside, sep);
    assert(source.components.drop_last() =~= paths::components(d, sep));
}

/// The text in lower case, in the sense of Unicode.
pub uninterp spec fn lowercase(s: Seq<char>) -> Seq<char>;

/// `str::to_lowercase` returns the lowercase equivalent of a string, which depends on the
/// string alone.
pub assume_specification[ str::to_lowercase ](s: &str) -> (r: String)
    ensures
        r@ == lowercase(s@),
;

/// One row in the picker: a directory to descend into, or a media file to subtitle.
#[derive(Debug, Clone, PartialEq, Eq)]
pub struct Entry {
    pub name: String,
    pub path: String,
    pub is_dir: bool,
    /// Bytes, for files.
    pub size: Option<u64>,
    /// When it was last changed, in milliseconds since the epoch.
    pub modified_ms: Option<i64>,
}

/// A row as a mathematical value.
#[verifier::ext_equal]
pub struct EntryView {
    pub name: Seq<char>,
    pub path: Seq<char>,
    pub is_dir: bool,
    pub size: Option<u64>,
    pub modified_ms: Option<i64>,
}

impl View for Entry {
    type V = EntryView;

    open spec fn view(&self) -> EntryView {
        EntryView {
            name: self.name@,
            path: self.path@,
            is_dir: self.is_dir,
            size: self.size,
            modified_ms: self.modified_ms,
        }
    }
}

/// The rows of a list as mathematical values.
pub open spec fn entry_views(entries: Seq<Entry>) -> Seq<EntryView> {
    entries.map_values(|e: Entry| e@)
}

/// What a directory holds, as it was read.
#[derive(Debug, Clone, PartialEq, Eq)]
pub struct RawEntry {
    pub name: String,
    pub path: String,
    pub is_dir: bool,
    pub size: u64,
    pub modified_ms: Option<i64>,
}

/// Whether the picker leaves a name out.
pub open spec fn hidden(name: Seq<char>) -> bool {
    name.len() > 0 && name[0] == '.'
}

/// Whether what was read becomes a row: directories on one side, media files on the other.
pub open spec fn offered(raw: RawEntry, dirs: bool) -> bool {
    !hidden(raw.name@) && if dirs {
        raw.is_dir
    } else {
        !raw.is_dir && media::attempted(paths::extension(raw.name@))
    }
}

/// The row for what was read.
pub open spec fn row(raw: RawEntry) -> EntryView {
    EntryView {
        name: raw.name@,
        path: raw.path@,
        is_dir: raw.is_dir,
        size: if raw.is_dir {
            None
        } else {
            Some(raw.size)
        },
        modified_ms: raw.modified_ms,
    }
}

/// The rows of one side, as they were read.
pub open spec fn rows(raw: Seq<RawEntry>, dirs: bool) -> Seq<EntryView>
    decreases raw.len(),
{
    if raw.len() == 0 {
        seq![]
    } else if offered(raw.last(), dirs) {
        rows(raw.drop_last(), dirs).push(row(raw.last()))
    } else {
        rows(raw.drop_last(), dirs)
    }
}

/// Whether a row goes above another: by name, whatever its case.
pub open spec fn above(a: EntryView, b: EntryView) -> bool {
    text::lex_before(lowercase(a.name), lowercase(b.name))
}

/// The order of rows in the picker.
pub open spec fn by_name() -> spec_fn(EntryView, EntryView) -> bool {
    |a: EntryView, b: EntryView| above(a, b)
}

/// Rows sorted by name, equals as they came.
pub open spec fn sorted_rows(entries: Seq<EntryView>) -> Seq<EntryView> {
    order::sorted(entries, by_name())
}

/// The rows of the picker: directories first, each side sorted by name.
pub open spec fn arranged(raw: Seq<RawEntry>) -> Seq<EntryView> {
    sorted_rows(rows(raw, true)) + sorted_rows(rows(raw, false))
}

/// A row with its name in lower case.
struct Keyed {
    key: Vec<char>,
    entry: Entry,
}

impl View for Keyed {
    type V = EntryView;

    closed spec fn view(&self) -> EntryView {
        self.entry@
    }
}

impl order::Ranked for Keyed {
    open spec fn rank() -> spec_fn(EntryView, EntryView) -> bool {
        by_name()
    }

    closed spec fn ready(&self) -> bool {
        self.key@ == lowercase(self.entry@.name)
    }

    fn goes_before(&self, other: &Self) -> (r: bool) {
        text::comes_before(self.key.as_slice(), other.key.as_slice())
    }
}

spec fn keyed(v: Seq<Keyed>) -> bool {
    forall|i: int| 0 <= i < v.len() ==> order::Ranked::ready(&(#[trigger] v[i]))
}

fn insert_keyed(out: &mut Vec<Keyed>, entry: Entry)
    requires
        keyed(old(out)@),
    ensures
        keyed(final(out)@),
        order::views(final(out)@) == order::inserted(order::views(old(out)@), entry@, by_name()),
{
    let key = text::chars_of(&entry.name.to_lowercase());
    order::insert(out, Keyed { key, entry });
}

fn sorted_side(raw: &[RawEntry], dirs: bool) -> (r: Vec<Keyed>)
    ensures
        order::views(r@) == sorted_rows(rows(raw@, dirs)),
{
    let mut out: Vec<Keyed> = Vec::new();
    let mut i: usize = 0;
    assert(order::views(out@) =~= seq![]);
    while i < raw.len()
        invariant
            i <= raw@.len(),
            keyed(out@),
            order::views(out@) == sorted_rows(rows(raw@.take(i as int), dirs)),
        decreases raw@.len() - i,
    {
        assert(raw@.take(i + 1).drop_last() =~= raw@.take(i as int));
        let name = text::chars_of(&raw[i].name);
        let visible = name.len() == 0 || name[0] != '.';
        let kind = if dirs {
            raw[i].is_dir
        } else {
            !raw[i].is_dir && match paths::extension_of(name.as_slice()) {
                Some(e) => media::is_media_extension(&text::string_of(e.as_slice())),
                None => false,
            }
        };
        if visible && kind {
            let entry = Entry {
                name: raw[i].name.clone(),
                path: raw[i].path.clone(),
                is_dir: raw[i].is_dir,
                size: if raw[i].is_dir {
                    None
                } else {
                    Some(raw[i].size)
                },
                modified_ms: raw[i].modified_ms,
            };
            assert(entry@ =~= row(raw@[i as int]));
            let ghost seen = rows(raw@.take(i as int), dirs);
            assert(seen.push(entry@).drop_last() =~= seen);
            insert_keyed(&mut out, entry);
        }
        i += 1;
    }
    assert(raw@.take(i as int) =~= raw@);
    out
}

/// Arranges what a directory holds for the picker: subdirectories and media files,
/// directories first, each side sorted by name, hidden ones left out.
pub fn arrange(raw: &[RawEntry]) -> (r: Vec<Entry>)
    ensures
        entry_views(r@) == arranged(raw@),
{
    let mut out: Vec<Entry> = Vec::new();
    let dirs = sorted_side(raw, true);
    let files = sorted_side(raw, false);
    assert(entry_views(out@) =~= seq![]);
    let ghost side = order::views(dirs@);
    append_entries(&mut out, dirs);
    append_entries(&mut out, files);
    assert(seq![] + side =~= side);
    out
}

fn append_entries(out: &mut Vec<Entry>, side: Vec<Keyed>)
    ensures
        entry_views(final(out)@) == entry_views(old(out)@) + order::views(side@),
{
    let mut i: usize = 0;
    assert(entry_views(old(out)@) + order::views(side@.take(0)) =~= entry_views(old(out)@));
    while i < side.len()
        invariant
            i <= side@.len(),
            entry_views(out@) == entry_views(old(out)@) + order::views(side@.take(i as int)),
        decreases side@.len() - i,
    {
        let e = &side[i].entry;
        let copy = Entry {
            name: e.name.clone(),
            path: e.path.clone(),
            is_dir: e.is_dir,
            size: e.size,
            modified_ms: e.modified_ms,
        };
        let ghost before = entry_views(out@);
        assert(copy@ =~= e@);
        out.push(copy);
        assert(entry_views(out@) =~= before.push(side@[i as int].entry@));
        assert(order::views(side@.take(i + 1)) =~= order::views(side@.take(i as int)).push(
            side@[i as int].entry@,
        ));
        i += 1;
        assert(entry_views(out@) =~= entry_views(old(out)@) + order::views(side@.take(i as int)));
    }
    assert(side@.take(i as int) =~= side@);
}

/// What looking a directory up found.
#[derive(Debug, Clone, PartialEq, Eq)]
pub struct DirProbe {
    pub canonical: Option<MediaPath>,
    pub is_dir: bool,
    pub roots: Vec<MediaPath>,
}

/// Whether a directory may be listed. The checks are those for a source file, so browsing
/// cannot be used to look around outside the roots either.
pub open spec fn dir_guard(
    canonical: Option<PathView>,
    is_dir: bool,
    roots: Seq<PathView>,
) -> Option<PathError> {
    match canonical {
        None => Some(PathError::Missing),
        Some(c) => if !under(c, roots) {
            Some(PathError::OutsideRoots)
        } else if !is_dir {
            Some(PathError::Missing)
        } else {
            None
        },
    }
}

/// Checks whether a directory may be listed.
pub fn check_dir(probe: &DirProbe) -> (r: Result<(), PathError>)
    ensures
        match r {
            Ok(_) => dir_guard(
                opt_path(probe.canonical),
                probe.is_dir,
                path_views(probe.roots@),
            ) is None,
            Err(e) => dir_guard(opt_path(probe.canonical), probe.is_dir, path_views(probe.roots@))
                == Some(e),
        },
{
    match &probe.canonical {
        None => Err(PathError::Missing),
        Some(canonical) => {
            if !contained(canonical, probe.roots.as_slice()) {
                Err(PathError::OutsideRoots)
            } else if !probe.is_dir {
                Err(PathError::Missing)
            } else {
                Ok(())
            }
        },
    }
}

/// Lists a directory, given what looking it up found and what it holds, if it could be read.
pub fn list_dir(probe: &DirProbe, held: Option<Vec<RawEntry>>) -> (r: Result<
    Vec<Entry>,
    PathError,
>)
    ensures
        match (
            dir_guard(opt_path(probe.canonical), probe.is_dir, path_views(probe.roots@)),
            held,
        ) {
            (Some(e), _) => r == Err::<Vec<Entry>, PathError>(e),
            (None, None) => r == Err::<Vec<Entry>, PathError>(PathError::Missing),
            (None, Some(raw)) => r is Ok && entry_views(r->Ok_0@) == arranged(raw@),
        },
{
    match check_dir(probe) {
        Err(e) => Err(e),
        Ok(_) => match held {
            None => Err(PathError::Missing),
            Some(raw) => Ok(arrange(raw.as_slice())),
        },
    }
}

/// A browsable starting point, with the label the picker shows.
#[derive(Debug, Clone, PartialEq, Eq)]
pub struct Root {
    pub name: String,
    pub path: String,
}

/// The directories a picker may start from, those that exist.
#[derive(Debug, Clone, PartialEq, Eq)]
pub struct RootProbe {
    pub movies: Option<String>,
    pub videos: Option<String>,
    pub downloads: Option<String>,
    pub desktop: Option<String>,
    pub documents: Option<String>,
    pub clips: Option<String>,
    pub home: Option<String>,
}

/// The roots of a list: label and path.
pub open spec fn root_views(roots: Seq<Root>) -> Seq<(Seq<char>, Seq<char>)> {
    roots.map_values(|r: Root| (r.name@, r.path@))
}

/// The row for a starting point, where there is one.
pub open spec fn root_row(name: Seq<char>, path: Option<String>) -> Seq<(Seq<char>, Seq<char>)> {
    match path {
        Some(p) => seq![(name, p@)],
        None => seq![],
    }
}

fn add_root(out: &mut Vec<Root>, name: &str, path: Option<String>)
    ensures
        root_views(final(out)@) == root_views(old(out)@) + root_row(name@, path),
{
    if let Some(path) = path {
        out.push(Root { name: name.to_string(), path });
    }
    assert(root_views(out@) =~= root_views(old(out)@) + root_row(name@, path));
}

/// The directories the picker offers, in the order it shows them: only those that exist.
#[must_use]
pub fn roots(found: RootProbe) -> (r: Vec<Root>)
    ensures
        root_views(r@) == root_row("Movies"@, found.movies) + root_row("Videos"@, found.videos)
            + root_row("Downloads"@, found.downloads) + root_row("Desktop"@, found.desktop)
            + root_row("Documents"@, found.documents) + root_row("Ryu clips"@, found.clips)
            + root_row("Home"@, found.home),
{
    let mut out: Vec<Root> = Vec::new();
    assert(root_views(out@) =~= seq![]);
    add_root(&mut out, "Movies", found.movies);
    add_root(&mut out, "Videos", found.videos);
    add_root(&mut out, "Downloads", found.downloads);
    add_root(&mut out, "Desktop", found.desktop);
    add_root(&mut out, "Documents", found.documents);
    add_root(&mut out, "Ryu clips", found.clips);
    add_root(&mut out, "Home", found.home);
    assert(seq![] + root_row("Movies"@, found.movies) =~= root_row("Movies"@, found.movies));
    out
}

/// The directories that a source may sit under, before they are resolved: the home directory
/// and the data directory, and no other. They hold more than the picker offers: a path may be
/// pasted as well.
pub fn containment_roots(home: Option<String>, data: String) -> (r: Vec<String>)
    ensures
        text::strings(r@) == match home {
            Some(h) => seq![h@, data@],
            None => seq![data@],
        },
{
    let mut out: Vec<String> = Vec::new();
    if let Some(h) = home {
        out.push(h);
    }
    out.push(data);
    assert(text::strings(out@) =~= match home {
        Some(h) => seq![h@, data@],
        None => seq![data@],
    });
    out
}

proof fn lemma_by_name()
    ensures
        order::ranks(by_name()),
{
    assert forall|a: EntryView, b: EntryView| #[trigger] above(a, b) implies !above(b, a) by {
        text::lemma_lex_order(lowercase(a.name), lowercase(b.name), lowercase(a.name));
    }
    assert forall|a: EntryView, b: EntryView, c: EntryView|
        !(#[trigger] above(a, b)) && !(#[trigger] above(b, c)) implies !above(a, c) by {
        text::lemma_lex_order(lowercase(c.name), lowercase(b.name), lowercase(a.name));
    }
}

proof fn lemma_rows(raw: Seq<RawEntry>, dirs: bool)
    ensures
        forall|i: int|
            0 <= i < rows(raw, dirs).len() ==> {
                &&& (#[trigger] rows(raw, dirs)[i]).is_dir == dirs
                &&& !hidden(rows(raw, dirs)[i].name)
            },
    decreases raw.len(),
{
    if raw.len() > 0 {
        lemma_rows(raw.drop_last(), dirs);
    }
}

/// The picker shows nothing hidden, directories before files, each side in the order of the
/// names, and each side holds exactly the rows that were read for it.
pub proof fn the_listing_is_in_order(raw: Seq<RawEntry>)
    ensures
        arranged(raw).len() == rows(raw, true).len() + rows(raw, false).len(),
        forall|i: int|
            0 <= i < arranged(raw).len() ==> {
                &&& (#[trigger] arranged(raw)[i]).is_dir == (i < rows(raw, true).len())
                &&& !hidden(arranged(raw)[i].name)
            },
        order::in_order(sorted_rows(rows(raw, true)), by_name()),
        order::in_order(sorted_rows(rows(raw, false)), by_name()),
        sorted_rows(rows(raw, true)).to_multiset() == rows(raw, true).to_multiset(),
        sorted_rows(rows(raw, false)).to_multiset() == rows(raw, false).to_multiset(),
{
    broadcast use vstd::seq_lib::group_to_multiset_ensures;

    lemma_rows(raw, true);
    lemma_rows(raw, false);
    lemma_by_name();
    order::lemma_sorted(rows(raw, true), by_name());
    order::lemma_sorted(rows(raw, false), by_name());
    let n = rows(raw, true).len() as int;
    assert forall|i: int| 0 <= i < arranged(raw).len() implies {
        &&& (#[trigger] arranged(raw)[i]).is_dir == (i < n)
        &&& !hidden(arranged(raw)[i].name)
    } by {
        let side = sorted_rows(rows(raw, i < n));
        let k = if i < n {
            i
        } else {
            i - n
        };
        assert(arranged(raw)[i] == side[k]);
        assert(side.to_multiset().count(side[k]) > 0);
        assert(rows(raw, i < n).contains(side[k]));
    }
}

/// The guard says what is wrong, and accepts what is not: a path that leads to a file below one
/// of the roots, with an extension on the list, is accepted as the path it leads to. One that
/// leads to no file is missing, whatever else is wrong with it; a file below no root is outside
/// them, whatever its kind.
pub proof fn the_guard_says_what_is_wrong(
    path: Seq<char>,
    c: PathView,
    is_file: bool,
    roots: Seq<PathView>,
    i: int,
    below: Seq<Seq<char>>,
)
    ensures
        guard(path, None, is_file, roots) == Err::<PathView, PathError>(PathError::Missing),
        guard(path, Some(c), false, roots) == Err::<PathView, PathError>(PathError::Missing),
        text::blank(path) ==> guard(path, Some(c), is_file, roots) == Err::<PathView, PathError>(
            PathError::Missing,
        ),
        !text::blank(path) && (forall|k: int|
            0 <= k < roots.len() ==> !(#[trigger] roots[k]).components.is_prefix_of(
                c.components,
            )) ==> guard(path, Some(c), true, roots) == Err::<PathView, PathError>(
            PathError::OutsideRoots,
        ),
        !text::blank(path) && 0 <= i < roots.len() && c.components == roots[i].components + below
            ==> {
            &&& !media::attempted(c.extension) ==> guard(path, Some(c), true, roots) == Err::<
                PathView,
                PathError,
            >(PathError::NotMedia)
            &&& media::attempted(c.extension) ==> guard(path, Some(c), true, roots) == Ok::<
                PathView,
                PathError,
            >(c)
        },
{
    text::lemma_trim(path);
    if 0 <= i < roots.len() && c.components == roots[i].components + below {
        assert(roots[i].components =~= c.components.subrange(
            0,
            roots[i].components.len() as int,
        ));
        assert(roots[i].components.is_prefix_of(c.components));
    }
}

/// A directory is listed if it lies below one of the roots; one below none is outside them, even
/// where it is no directory, and what does not resolve or is no directory is missing.
pub proof fn only_directories_below_the_roots_are_listed(
    c: PathView,
    is_dir: bool,
    roots: Seq<PathView>,
    i: int,
    below: Seq<Seq<char>>,
)
    ensures
        dir_guard(None, is_dir, roots) == Some(PathError::Missing),
        (forall|k: int|
            0 <= k < roots.len() ==> !(#[trigger] roots[k]).components.is_prefix_of(c.components))
            ==> dir_guard(Some(c), is_dir, roots) == Some(PathError::OutsideRoots),
        0 <= i < roots.len() && c.components == roots[i].components + below ==> {
            &&& dir_guard(Some(c), true, roots) is None
            &&& dir_guard(Some(c), false, roots) == Some(PathError::Missing)
        },
{
    if 0 <= i < roots.len() && c.components == roots[i].components + below {
        assert(roots[i].components =~= c.components.subrange(
            0,
            roots[i].components.len() as int,
        ));
        assert(roots[i].components.is_prefix_of(c.components));
    }
}

/// The name of a subtitle file reads back: its extension is that of the format, the extension in
/// front of it is the language, and what is left is the stem of the video. Where no language is
/// given it is left out, and a video without a stem has one.
pub proof fn a_sidecar_name_reads_back(
    s: Seq<char>,
    language: Seq<char>,
    extension: Seq<char>,
)
    requires
        s.len() > 0,
        paths::without(language, '.'),
        paths::without(extension, '.'),
    ensures
        ({
            let name = sidecar_name(Some(s), language, extension);
            let rest = paths::stem(name);
            &&& paths::extension(name) == Some(extension)
            &&& text::blank(language) ==> rest == s
            &&& !text::blank(language) ==> paths::extension(rest) == Some(text::trim(language))
                && paths::stem(rest) == s
        }),
        sidecar_name(None, language, extension) == sidecar_name(
            Some("subtitles"@),
            language,
            extension,
        ),
{
    let code = text::trim(language);
    text::lemma_trim(language);
    assert(paths::without(code, '.')) by {
        let back = text::trim_start(language);
        text::lemma_trim_start(language);
        text::lemma_trim_end(back);
        assert forall|i: int| 0 <= i < code.len() implies #[trigger] code[i] != '.' by {
            assert(code[i] == back[i]);
            assert(back[i] == language[i + language.len() - back.len()]);
        }
    }
    paths::the_last_dot_makes_the_extension(s, extension);
    paths::the_last_dot_makes_the_extension(s, code);
    paths::the_last_dot_makes_the_extension(s + seq!['.'] + code, extension);
}

/// Every directory that was read becomes one row, and so does every file with a media extension,
/// in the order in which they were read; what is hidden, which begins with a dot, becomes
/// none. A row tells the name, the path and the time of change, and the size of a file.
pub proof fn rows_are_what_was_read(raw: Seq<RawEntry>, dirs: bool)
    ensures
        rows(raw, dirs) == raw.filter(
            |r: RawEntry|
                {
                    &&& r.is_dir == dirs
                    &&& r.name@.len() == 0 || r.name@[0] != '.'
                    &&& dirs || media::attempted(paths::extension(r.name@))
                },
        ).map_values(
            |r: RawEntry|
                (EntryView {
                    name: r.name@,
                    path: r.path@,
                    is_dir: dirs,
                    size: if dirs {
                        None
                    } else {
                        Some(r.size)
                    },
                    modified_ms: r.modified_ms,
                }),
        ),
    decreases raw.len(),
{
    reveal(Seq::filter);
    let keep = |r: RawEntry|
        {
            &&& r.is_dir == dirs
            &&& r.name@.len() == 0 || r.name@[0] != '.'
            &&& dirs || media::attempted(paths::extension(r.name@))
        };
    let show = |r: RawEntry|
        (EntryView {
            name: r.name@,
            path: r.path@,
            is_dir: dirs,
            size: if dirs {
                None
            } else {
                Some(r.size)
            },
            modified_ms: r.modified_ms,
        });
    if raw.len() > 0 {
        let front = raw.drop_last();
        rows_are_what_was_read(front, dirs);
        let kept = front.filter(keep);
        if keep(raw.last()) {
            assert(raw.filter(keep) =~= kept.push(raw.last()));
            assert(kept.push(raw.last()).map_values(show) =~= kept.map_values(show).push(
                show(raw.last()),
            ));
            assert(row(raw.last()) =~= show(raw.last()));
        }
    } else {
        assert(raw.filter(keep).map_values(show) =~= seq![]);
    }
}

/// Whether a row goes by a name, once the name of the row is in lower case.
pub open spec fn called(n: Seq<char>) -> spec_fn(EntryView) -> bool {
    |e: EntryView| lowercase(e.name) == n
}

proof fn lemma_called_alike(n: Seq<char>)
    ensures
        forall|a: EntryView, b: EntryView|
            called(n)(a) && called(n)(b) ==> !#[trigger] by_name()(a, b),
{
    text::lemma_lex_order(n, n, n);
}

/// The rows of the picker are the rows of the directories and then those of the files; a row
/// whose name in lower case comes first stands above, and rows of one name stay as they came.
pub proof fn the_picker_goes_by_name(raw: Seq<RawEntry>, dirs: bool, i: int, j: int)
    requires
        0 <= i < j < sorted_rows(rows(raw, dirs)).len(),
    ensures
        ({
            let side = sorted_rows(rows(raw, dirs));
            let at = if dirs {
                0
            } else {
                rows(raw, true).len() as int
            };
            &&& !text::lex_before(lowercase(side[j].name), lowercase(side[i].name))
            &&& side.len() == rows(raw, dirs).len()
            &&& arranged(raw)[at + i] == side[i]
            &&& arranged(raw)[at + j] == side[j]
        }),
        forall|n: Seq<char>|
            sorted_rows(rows(raw, dirs)).filter(#[trigger] called(n)) == rows(raw, dirs).filter(
                called(n),
            ),
{
    assert forall|n: Seq<char>|
        sorted_rows(rows(raw, dirs)).filter(#[trigger] called(n)) == rows(raw, dirs).filter(
            called(n),
        ) by {
        lemma_called_alike(n);
        order::sorting_keeps_equals_as_they_came(rows(raw, dirs), by_name(), called(n));
    }
    broadcast use vstd::seq_lib::group_to_multiset_ensures;

    lemma_by_name();
    order::lemma_sorted(rows(raw, dirs), by_name());
    order::lemma_sorted(rows(raw, true), by_name());
    let side = sorted_rows(rows(raw, dirs));
    assert(!by_name()(side[j], side[i]));
}

/// A starting point that exists is one row with its label and its path; one that does not is
/// none.
pub proof fn a_root_is_offered_where_it_exists(name: Seq<char>, path: String)
    ensures
        root_row(name, Some(path)).len() == 1,
        root_row(name, Some(path))[0] == (name, path@),
        root_row(name, None).len() == 0,
{
}

/// A path that was put together from a directory, a stem and an extension is taken apart into
/// them, and keeps its whole text.
pub proof fn a_path_is_taken_apart(d: Seq<char>, base: Seq<char>, e: Seq<char>, sep: char)
    requires
        paths::plain_directory(d, sep),
        base.len() > 0,
        paths::without(base, sep),
        paths::without(e, sep),
        paths::without(e, '.'),
        paths::names(base + seq!['.'] + e),
        sep != '.',
    ensures
        ({
            let name = base + seq!['.'] + e;
            let p = taken_apart(d + name, sep);
            &&& p.text == d + name
            &&& p.directory == d
            &&& p.name == Some(name)
            &&& p.stem == Some(base)
            &&& p.extension == Some(e)
            &&& p.components == paths::components(d, sep).push(name)
        }),
{
    let name = base + seq!['.'] + e;
    assert forall|i: int| 0 <= i < name.len() implies #[trigger] name[i] != sep by {
        if i < base.len() {
            assert(name[i] == base[i]);
        } else if i > base.len() {
            assert(name[i] == e[i - base.len() - 1]);
        }
    }
    paths::a_path_comes_apart(d, name, sep);
    paths::the_last_dot_makes_the_extension(base, e);
}

} // verus!
