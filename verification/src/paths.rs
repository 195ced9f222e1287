//! Taking the text of a path apart: its components, the directory, the file name, and the stem
//! and the extension of that.
//!
//! Paths are read as they are resolved on Unix, with a separator of the caller's choice. The
//! canonical paths of other systems read the same way.

use crate::text;
use vstd::prelude::*;
use vstd::slice::slice_subrange;
use vstd::slice::slice_to_vec;

verus! {

/// A piece of a path that leads nowhere: nothing at all, or the directory itself.
pub open spec fn idle(piece: Seq<char>) -> bool {
    piece.len() == 0 || piece == "."@
}

/// The components of a path. A leading separator is a component of its own, the root. Pieces
/// that lead nowhere are none, but for a `.` that the path begins with.
pub open spec fn components(path: Seq<char>, sep: char) -> Seq<Seq<char>>
    decreases path.len(),
{
    let k = text::last_index(path, sep);
    let piece = path.skip(k + 1);
    if path.len() == 0 {
        seq![]
    } else if !(0 <= k < path.len()) {
        seq![path]
    } else {
        let before = if k == 0 {
            seq![seq![sep]]
        } else {
            components(path.take(k), sep)
        };
        if idle(piece) {
            before
        } else {
            before.push(piece)
        }
    }
}

/// A path without the separators and the pieces at its end that lead nowhere. The root stays.
pub open spec fn stripped(path: Seq<char>, sep: char) -> Seq<char>
    decreases path.len(),
{
    let k = text::last_index(path, sep);
    if 0 <= k < path.len() && idle(path.skip(k + 1)) {
        if k == 0 {
            path.take(1)
        } else {
            stripped(path.take(k), sep)
        }
    } else {
        path
    }
}

/// A piece that names something: not nothing, not the directory itself, not the one above.
pub open spec fn names(piece: Seq<char>) -> bool {
    !idle(piece) && piece != ".."@
}

/// The file name: the last piece of a path, where it names something.
pub open spec fn file_name(path: Seq<char>, sep: char) -> Option<Seq<char>> {
    let p = stripped(path, sep);
    let name = p.skip(text::last_index(p, sep) + 1);
    if names(name) {
        Some(name)
    } else {
        None
    }
}

/// A path with a separator at its end, where there is a path.
pub open spec fn as_directory(path: Seq<char>, sep: char) -> Seq<char> {
    if path.len() == 0 || path.last() == sep {
        path
    } else {
        path.push(sep)
    }
}

/// What stands in front of the file name, up to and with the separator: what another name is
/// put behind to make a path in the same directory.
pub open spec fn directory(path: Seq<char>, sep: char) -> Seq<char> {
    let p = stripped(path, sep);
    let k = text::last_index(p, sep);
    if file_name(path, sep) is None {
        as_directory(path, sep)
    } else if k < 0 {
        seq![]
    } else {
        as_directory(stripped(p.take(k + 1), sep), sep)
    }
}

/// The stem of a file name: what stands in front of its last dot. A name that begins with its
/// only dot, or has none, is all stem.
pub open spec fn stem(name: Seq<char>) -> Seq<char> {
    let k = text::last_index(name, '.');
    if k <= 0 {
        name
    } else {
        name.take(k)
    }
}

/// The extension of a file name: what stands behind its last dot. A name that begins with its
/// only dot, or has none, has none.
pub open spec fn extension(name: Seq<char>) -> Option<Seq<char>> {
    let k = text::last_index(name, '.');
    if k <= 0 {
        None
    } else {
        Some(name.skip(k + 1))
    }
}

fn is_idle(piece: &[char]) -> (r: bool)
    ensures
        r == idle(piece@),
{
    piece.len() == 0 || text::spells(piece, ".")
}

/// The components of a path.
pub fn components_of(path: &[char], sep: char) -> (r: Vec<Vec<char>>)
    ensures
        text::texts(r@) == components(path@, sep),
    decreases path@.len(),
{
    if path.len() == 0 {
        let none: Vec<Vec<char>> = Vec::new();
        assert(text::texts(none@) =~= seq![]);
        return none;
    }
    match text::last_index_of(path, sep) {
        None => {
            let mut one: Vec<Vec<char>> = Vec::new();
            one.push(slice_to_vec(path));
            assert(text::texts(one@) =~= seq![path@]);
            one
        },
        Some(k) => {
            let piece = slice_subrange(path, k + 1, path.len());
            assert(piece@ =~= path@.skip(k + 1));
            let mut out: Vec<Vec<char>> = Vec::new();
            if k == 0 {
                let mut root: Vec<char> = Vec::new();
                root.push(sep);
                assert(root@ =~= seq![sep]);
                out.push(root);
                assert(text::texts(out@) =~= seq![seq![sep]]);
            } else {
                let front = slice_subrange(path, 0, k);
                assert(front@ =~= path@.take(k as int));
                out = components_of(front, sep);
            }
            if !is_idle(piece) {
                let ghost before = text::texts(out@);
                out.push(slice_to_vec(piece));
                assert(text::texts(out@) =~= before.push(piece@));
            }
            out
        },
    }
}

/// A path without what leads nowhere at its end.
pub fn stripped_of(path: &[char], sep: char) -> (r: &[char])
    ensures
        r@ == stripped(path@, sep),
{
    let mut end: usize = path.len();
    assert(path@.take(end as int) =~= path@);
    while end > 0
        invariant
            end <= path@.len(),
            stripped(path@, sep) == stripped(path@.take(end as int), sep),
        decreases end,
    {
        let part = slice_subrange(path, 0, end);
        assert(part@ =~= path@.take(end as int));
        match text::last_index_of(part, sep) {
            None => return part,
            Some(k) => {
                let piece = slice_subrange(part, k + 1, part.len());
                assert(piece@ =~= part@.skip(k + 1));
                if !is_idle(piece) {
                    return part;
                }
                if k == 0 {
                    let root = slice_subrange(part, 0, 1);
                    assert(root@ =~= part@.take(1));
                    return root;
                }
                assert(part@.take(k as int) =~= path@.take(k as int));
                end = k;
            },
        }
    }
    let nothing = slice_subrange(path, 0, 0);
    assert(nothing@ =~= path@.take(0));
    nothing
}

/// Where the last piece of a path begins.
fn last_piece(path: &[char], sep: char) -> (r: usize)
    ensures
        r == text::last_index(path@, sep) + 1,
        r <= path@.len(),
{
    let len: usize = path.len();
    match text::last_index_of(path, sep) {
        Some(k) if k < len => k + 1,
        _ => 0,
    }
}

/// The file name of a path.
pub fn file_name_of(path: &[char], sep: char) -> (r: Option<Vec<char>>)
    ensures
        match (r, file_name(path@, sep)) {
            (Some(a), Some(b)) => a@ == b,
            (None, None) => true,
            _ => false,
        },
{
    let p = stripped_of(path, sep);
    let name = slice_subrange(p, last_piece(p, sep), p.len());
    assert(name@ =~= p@.skip(text::last_index(p@, sep) + 1));
    if is_idle(name) || text::spells(name, "..") {
        None
    } else {
        Some(slice_to_vec(name))
    }
}

fn as_directory_of(path: &[char], sep: char) -> (r: Vec<char>)
    ensures
        r@ == as_directory(path@, sep),
{
    let mut out = slice_to_vec(path);
    if path.len() > 0 && path[path.len() - 1] != sep {
        out.push(sep);
    }
    out
}

/// What stands in front of the file name of a path.
pub fn directory_of(path: &[char], sep: char) -> (r: Vec<char>)
    ensures
        r@ == directory(path@, sep),
{
    if file_name_of(path, sep).is_none() {
        return as_directory_of(path, sep);
    }
    let p = stripped_of(path, sep);
    let start: usize = last_piece(p, sep);
    if start == 0 {
        return Vec::new();
    }
    let front = slice_subrange(p, 0, start);
    assert(front@ =~= p@.take(start as int));
    as_directory_of(stripped_of(front, sep), sep)
}

/// The stem of a file name.
pub fn stem_of(name: &[char]) -> (r: Vec<char>)
    ensures
        r@ == stem(name@),
{
    match text::last_index_of(name, '.') {
        Some(k) => {
            if k == 0 {
                slice_to_vec(name)
            } else {
                assert(name@.take(k as int) =~= name@.subrange(0, k as int));
                slice_to_vec(slice_subrange(name, 0, k))
            }
        },
        None => slice_to_vec(name),
    }
}

/// The extension of a file name.
pub fn extension_of(name: &[char]) -> (r: Option<Vec<char>>)
    ensures
        match (r, extension(name@)) {
            (Some(a), Some(b)) => a@ == b,
            (None, None) => true,
            _ => false,
        },
{
    let len: usize = name.len();
    match text::last_index_of(name, '.') {
        Some(k) => {
            if k == 0 {
                None
            } else {
                let back = slice_subrange(name, k + 1, len);
                assert(back@ =~= name@.skip(k + 1));
                Some(slice_to_vec(back))
            }
        },
        None => None,
    }
}

/// `s` holds no `c`.
pub open spec fn without(s: Seq<char>, c: char) -> bool {
    forall|i: int| 0 <= i < s.len() ==> #[trigger] s[i] != c
}

proof fn lemma_last_index(s: Seq<char>, c: char)
    ensures
        -1 <= text::last_index(s, c) < s.len(),
        text::last_index(s, c) >= 0 ==> s[text::last_index(s, c)] == c,
        forall|i: int| text::last_index(s, c) < i < s.len() ==> #[trigger] s[i] != c,
    decreases s.len(),
{
    if s.len() > 0 && s.last() != c {
        let front = s.drop_last();
        lemma_last_index(front, c);
        assert forall|i: int| text::last_index(s, c) < i < s.len() implies #[trigger] s[i] != c by {
            if i < front.len() {
                assert(front[i] == s[i]);
            }
        }
    }
}

proof fn lemma_last_index_add(a: Seq<char>, b: Seq<char>, c: char)
    requires
        without(b, c),
    ensures
        text::last_index(a + b, c) == text::last_index(a, c),
    decreases b.len(),
{
    if b.len() == 0 {
        assert(a + b =~= a);
    } else {
        let all = a + b;
        assert(all.last() == b[b.len() - 1]);
        assert(all.drop_last() =~= a + b.drop_last());
        lemma_last_index_add(a, b.drop_last(), c);
    }
}

/// Text that a file name is put behind: nothing, the root, or a path that does not end in a
/// piece that leads nowhere, with a separator behind it.
pub open spec fn plain_directory(d: Seq<char>, sep: char) -> bool {
    ||| d.len() == 0
    ||| d == seq![sep]
    ||| {
        &&& d.len() > 1
        &&& d.last() == sep
        &&& stripped(d.drop_last(), sep) == d.drop_last()
        &&& d.drop_last().last() != sep
    }
}

/// A path comes apart where it was put together: of a file name behind a directory, the two
/// are found again, and the components are those of the directory with the name behind them.
pub proof fn a_path_comes_apart(d: Seq<char>, name: Seq<char>, sep: char)
    requires
        plain_directory(d, sep),
        names(name),
        without(name, sep),
    ensures
        file_name(d + name, sep) == Some(name),
        directory(d + name, sep) == d,
        components(d + name, sep) == components(d, sep).push(name),
{
    let path = d + name;
    let k = text::last_index(path, sep);
    lemma_last_index_add(d, name, sep);
    assert(d.len() > 0 ==> k == d.len() - 1);
    assert(d.len() == 0 ==> k == -1);
    assert(path.skip(k + 1) =~= name);
    assert(stripped(path, sep) == path);
    let none = Seq::<char>::empty();
    if d.len() == 0 {
        assert(path =~= name);
        assert(components(path, sep) =~= components(d, sep).push(name));
    } else {
        assert(path.take(k + 1) =~= d);
        assert(d.skip(d.len() as int) =~= none);
        assert(idle(none));
        if d == seq![sep] {
            assert(d.take(1) =~= d);
            assert(components(d, sep) =~= seq![seq![sep]]);
        } else {
            let q = d.drop_last();
            assert(d.take(k) =~= q);
            assert(path.take(k) =~= q);
            assert(q.push(sep) =~= d);
            assert(components(d, sep) == components(q, sep));
        }
    }
}

/// The stem of a name that names something names something too, and holds nothing that the
/// name does not.
pub proof fn a_stem_is_part_of_the_name(name: Seq<char>, sep: char)
    requires
        without(name, sep),
        name.len() > 0,
    ensures
        without(stem(name), sep),
        stem(name).len() > 0,
        extension(name) matches Some(e) ==> name == stem(name) + seq!['.'] + e,
        extension(name) is None ==> name == stem(name),
{
    lemma_last_index(name, '.');
    let k = text::last_index(name, '.');
    if k > 0 {
        assert(name =~= name.take(k) + seq!['.'] + name.skip(k + 1));
        assert forall|i: int| 0 <= i < stem(name).len() implies #[trigger] stem(name)[i] != sep by {
            assert(stem(name)[i] == name[i]);
        }
    }
}

/// The components of a path that was put together from names are those names, with the root in
/// front of them where the path begins with a separator. A path may begin with the directory
/// itself, which is a component there and nowhere else.
pub proof fn a_path_is_its_components(parts: Seq<Seq<char>>, sep: char)
    requires
        parts.len() > 0,
        forall|i: int| 0 <= i < parts.len() ==> without(#[trigger] parts[i], sep),
        forall|i: int|
            0 <= i < parts.len() ==> (#[trigger] parts[i]).len() > 0 && (i > 0 ==> parts[i] != "."@),
    ensures
        components(text::join(parts, seq![sep]), sep) == parts,
        parts[0] != "."@ ==> components(seq![sep] + text::join(parts, seq![sep]), sep) == seq![
            seq![sep],
        ] + parts,
        parts[0] == "."@ ==> components(seq![sep] + text::join(parts, seq![sep]), sep) == seq![
            seq![sep],
        ] + parts.drop_first(),
        text::join(parts, seq![sep]).len() > 0,
    decreases parts.len(),
{
    let whole = text::join(parts, seq![sep]);
    let last = parts.last();
    assert(last == parts[parts.len() - 1]);
    let rooted = seq![sep] + whole;
    if parts.len() == 1 {
        assert(whole == parts[0]);
        lemma_last_index(whole, sep);
        assert(parts =~= seq![whole]);
        lemma_last_index_add(seq![sep], whole, sep);
        assert(text::last_index(seq![sep], sep) == 0);
        assert(rooted.skip(1) =~= whole);
        assert(seq![seq![sep]].push(whole) =~= seq![seq![sep]] + parts);
        assert(seq![seq![sep]] + parts.drop_first() =~= seq![seq![sep]]);
    } else {
        let front = parts.drop_last();
        assert forall|i: int| 0 <= i < front.len() implies without(#[trigger] front[i], sep) by {
            assert(front[i] == parts[i]);
        }
        assert forall|i: int| 0 <= i < front.len() implies (#[trigger] front[i]).len() > 0 && (i > 0
            ==> front[i] != "."@) by {
            assert(front[i] == parts[i]);
        }
        a_path_is_its_components(front, sep);
        let before = text::join(front, seq![sep]);
        let d = before + seq![sep];
        assert(whole == d + last);
        lemma_last_index_add(d, last, sep);
        assert(d.last() == sep);
        assert(text::last_index(whole, sep) == before.len());
        assert(whole.skip((before.len() + 1) as int) =~= last);
        assert(whole.take(before.len() as int) =~= before);
        assert(front.push(last) =~= parts);
        let e = seq![sep] + before + seq![sep];
        assert(rooted =~= e + last);
        lemma_last_index_add(e, last, sep);
        assert(e.last() == sep);
        assert(text::last_index(rooted, sep) == before.len() + 1);
        assert(rooted.skip((before.len() + 2) as int) =~= last);
        assert(rooted.take((before.len() + 1) as int) =~= seq![sep] + before);
        assert((seq![seq![sep]] + front).push(last) =~= seq![seq![sep]] + parts);
        assert((seq![seq![sep]] + front.drop_first()).push(last) =~= seq![seq![sep]]
            + parts.drop_first());
    }
}

/// Separators at the end of a path, and pieces that name the directory itself, change neither
/// its components nor its file name.
pub proof fn what_leads_nowhere_does_not_count(path: Seq<char>, sep: char)
    requires
        path.len() > 0,
        sep != '.',
    ensures
        components(path.push(sep), sep) == components(path, sep),
        file_name(path.push(sep), sep) == file_name(path, sep),
        components(path + seq![sep, '.'], sep) == components(path, sep),
        file_name(path + seq![sep, '.'], sep) == file_name(path, sep),
{
    reveal_strlit(".");
    let a = path.push(sep);
    let none = Seq::<char>::empty();
    assert(a.skip(a.len() as int) =~= none);
    assert(a.take(path.len() as int) =~= path);
    let b = path + seq![sep, '.'];
    assert(b =~= a + seq!['.']);
    lemma_last_index_add(a, seq!['.'], sep);
    assert(text::last_index(b, sep) == path.len());
    assert(b.skip((path.len() + 1) as int) =~= "."@);
    assert(b.take(path.len() as int) =~= path);
}

/// A path that ends in the root or in the directory above has no file name, and neither has one
/// that is empty.
pub proof fn not_every_path_names_a_file(path: Seq<char>, sep: char)
    requires
        sep != '.',
    ensures
        file_name(seq![], sep) is None,
        file_name(seq![sep], sep) is None,
        file_name(path + seq![sep, '.', '.'], sep) is None,
        file_name(seq!['.', '.'], sep) is None,
{
    reveal_strlit("..");
    reveal_strlit(".");
    let none = Seq::<char>::empty();
    assert(none.skip(0) =~= none);
    let root = seq![sep];
    assert(root.skip(1) =~= none);
    assert(root.take(1) =~= root);
    let up = seq!['.', '.'];
    assert(up =~= ".."@);
    assert(up.skip(0) =~= up);
    lemma_last_index(up, sep);
    let a = path.push(sep);
    let b = path + seq![sep, '.', '.'];
    assert(b =~= a + up);
    lemma_last_index_add(a, up, sep);
    assert(text::last_index(b, sep) == path.len());
    assert(b.skip((path.len() + 1) as int) =~= up);
}

/// The extension is what stands behind the last dot of a name, and the stem what stands in front
/// of it. A name without a dot, and one whose only dot it begins with, is all stem.
pub proof fn the_last_dot_makes_the_extension(base: Seq<char>, e: Seq<char>)
    requires
        without(e, '.'),
    ensures
        base.len() > 0 ==> extension(base + seq!['.'] + e) == Some(e),
        base.len() > 0 ==> stem(base + seq!['.'] + e) == base,
        extension(seq!['.'] + e) is None && stem(seq!['.'] + e) == seq!['.'] + e,
        extension(e) is None && stem(e) == e,
{
    let d = base.push('.');
    let name = base + seq!['.'] + e;
    assert(name =~= d + e);
    lemma_last_index_add(d, e, '.');
    assert(text::last_index(name, '.') == base.len());
    assert(name.skip((base.len() + 1) as int) =~= e);
    assert(name.take(base.len() as int) =~= base);
    lemma_last_index_add(seq!['.'], e, '.');
    assert(text::last_index(seq!['.'], '.') == 0);
    lemma_last_index(e, '.');
}

/// The directory of a path holds nothing that leads nowhere in front of the name: separators more
/// than one, and pieces that name the directory itself, are dropped from its end.
pub proof fn a_directory_ends_in_one_separator(d: Seq<char>, name: Seq<char>, sep: char)
    requires
        plain_directory(d, sep),
        d.len() > 0,
        names(name),
        without(name, sep),
        sep != '.',
    ensures
        directory(d.push(sep) + name, sep) == d,
        directory(d + seq!['.', sep] + name, sep) == d,
        file_name(d.push(sep) + name, sep) == Some(name),
        file_name(d + seq!['.', sep] + name, sep) == Some(name),
{
    let a = d.push(sep);
    let b = d + seq!['.', sep];
    lemma_found_behind(a, name, sep);
    lemma_found_behind(b, name, sep);
    lemma_nothing_more(d, sep);
    reveal_strlit(".");
    let none = Seq::<char>::empty();
    // Behind `d` stands a separator more.
    assert(a.skip(a.len() as int) =~= none);
    assert(a.take(d.len() as int) =~= d);
    assert(text::last_index(a, sep) == d.len());
    assert(stripped(a, sep) == stripped(d, sep));
    // Behind `d` stands the directory itself.
    let c = d.push('.');
    assert(b.take(c.len() as int) =~= c);
    assert(b.skip(b.len() as int) =~= none);
    assert(text::last_index(b, sep) == c.len());
    assert(stripped(b, sep) == stripped(c, sep));
    lemma_last_index_add(d, seq!['.'], sep);
    assert(c =~= d + seq!['.']);
    assert(text::last_index(c, sep) == d.len() - 1);
    assert(c.skip(d.len() as int) =~= "."@);
    assert(c.take(d.len() - 1) =~= d.drop_last());
    assert(c.take(1) =~= d.take(1));
    assert(d.skip(d.len() as int) =~= none);
    assert(d.take(d.len() - 1) =~= d.drop_last());
    assert(stripped(c, sep) == stripped(d, sep));
}

/// A name behind text that ends in a separator is the last piece.
proof fn lemma_found_behind(front: Seq<char>, name: Seq<char>, sep: char)
    requires
        front.len() > 0,
        front.last() == sep,
        names(name),
        without(name, sep),
    ensures
        file_name(front + name, sep) == Some(name),
        directory(front + name, sep) == as_directory(stripped(front, sep), sep),
{
    let path = front + name;
    lemma_last_index_add(front, name, sep);
    let k = text::last_index(path, sep);
    assert(k == front.len() - 1);
    assert(path.skip(k + 1) =~= name);
    assert(path.take(k + 1) =~= front);
}

/// A plain directory is what is left of it with a separator behind.
proof fn lemma_nothing_more(d: Seq<char>, sep: char)
    requires
        plain_directory(d, sep),
        d.len() > 0,
    ensures
        as_directory(stripped(d, sep), sep) == d,
{
    let none = Seq::<char>::empty();
    assert(d.skip(d.len() as int) =~= none);
    if d == seq![sep] {
        assert(d.take(1) =~= d);
    } else {
        let q = d.drop_last();
        assert(d.take(d.len() - 1) =~= q);
        assert(q.push(sep) =~= d);
    }
}

} // verus!
