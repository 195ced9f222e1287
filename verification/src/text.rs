//! Text as sequences of characters: whitespace, trimming, searching and decimal numbers.

use vstd::prelude::*;
use vstd::slice::slice_subrange;
use vstd::slice::slice_to_vec;

verus! {

/// `String::push` appends one character to the end of the string.
pub assume_specification[ String::push ](s: &mut String, c: char)
    ensures
        final(s)@ == old(s)@.push(c),
;

/// The characters with the Unicode `White_Space` property.
pub open spec fn white(c: char) -> bool {
    let u = c as u32;
    ||| 0x9 <= u <= 0xD
    ||| u == 0x20
    ||| u == 0x85
    ||| u == 0xA0
    ||| u == 0x1680
    ||| 0x2000 <= u <= 0x200A
    ||| u == 0x2028
    ||| u == 0x2029
    ||| u == 0x202F
    ||| u == 0x205F
    ||| u == 0x3000
}

/// Whether `c` is whitespace.
pub fn is_white(c: char) -> (r: bool)
    ensures
        r == white(c),
{
    let u: u32 = c as u32;
    (0x9 <= u && u <= 0xD) || u == 0x20 || u == 0x85 || u == 0xA0 || u == 0x1680 || (0x2000 <= u
        && u <= 0x200A) || u == 0x2028 || u == 0x2029 || u == 0x202F || u == 0x205F || u == 0x3000
}

/// `s` without its leading whitespace.
pub open spec fn trim_start(s: Seq<char>) -> Seq<char>
    decreases s.len(),
{
    if s.len() > 0 && white(s[0]) {
        trim_start(s.drop_first())
    } else {
        s
    }
}

/// `s` without its trailing whitespace.
pub open spec fn trim_end(s: Seq<char>) -> Seq<char>
    decreases s.len(),
{
    if s.len() > 0 && white(s.last()) {
        trim_end(s.drop_last())
    } else {
        s
    }
}

/// `s` without whitespace at either end.
pub open spec fn trim(s: Seq<char>) -> Seq<char> {
    trim_end(trim_start(s))
}

/// Whether every character of `s` is whitespace.
pub open spec fn blank(s: Seq<char>) -> bool {
    forall|i: int| 0 <= i < s.len() ==> white(#[trigger] s[i])
}

/// The characters of a string, one by one.
pub fn chars_of(s: &str) -> (r: Vec<char>)
    ensures
        r@ == s@,
{
    let mut out: Vec<char> = Vec::new();
    for c in it: s.chars()
        invariant
            out@ == it.seq().take(it.index() as int),
            it.seq() == s@,
    {
        out.push(c);
        assert(it.seq().take(it.index() + 1) =~= it.seq().take(it.index() as int).push(c));
    }
    assert(s@.take(s@.len() as int) =~= s@);
    out
}

/// The string made of the characters of `cs`.
pub fn string_of(cs: &[char]) -> (r: String)
    ensures
        r@ == cs@,
{
    let mut out: String = String::new();
    let mut i: usize = 0;
    while i < cs.len()
        invariant
            i <= cs.len(),
            out@ == cs@.take(i as int),
        decreases cs.len() - i,
    {
        out.push(cs[i]);
        i += 1;
        assert(cs@.take(i as int) =~= cs@.take(i - 1).push(cs@[i - 1]));
    }
    assert(cs@.take(i as int) =~= cs@);
    out
}

/// `cs` without its leading whitespace.
pub fn trim_start_of(cs: &[char]) -> (r: &[char])
    ensures
        r@ == trim_start(cs@),
{
    let mut k: usize = 0;
    assert(cs@.skip(0) =~= cs@);
    while k < cs.len() && is_white(cs[k])
        invariant
            k <= cs.len(),
            trim_start(cs@) == trim_start(cs@.skip(k as int)),
        decreases cs.len() - k,
    {
        assert(cs@.skip(k as int).drop_first() =~= cs@.skip(k + 1));
        k += 1;
    }
    assert(cs@.skip(k as int) =~= cs@.subrange(k as int, cs@.len() as int));
    slice_subrange(cs, k, cs.len())
}

/// `cs` without its trailing whitespace.
pub fn trim_end_of(cs: &[char]) -> (r: &[char])
    ensures
        r@ == trim_end(cs@),
{
    let mut k: usize = cs.len();
    assert(cs@.take(cs@.len() as int) =~= cs@);
    while k > 0 && is_white(cs[k - 1])
        invariant
            k <= cs.len(),
            trim_end(cs@) == trim_end(cs@.take(k as int)),
        decreases k,
    {
        assert(cs@.take(k as int).drop_last() =~= cs@.take(k - 1));
        k -= 1;
    }
    assert(cs@.take(k as int) =~= cs@.subrange(0, k as int));
    slice_subrange(cs, 0, k)
}

/// `cs` without whitespace at either end.
pub fn trim_of(cs: &[char]) -> (r: &[char])
    ensures
        r@ == trim(cs@),
{
    trim_end_of(trim_start_of(cs))
}

/// The part of a string between its leading and trailing whitespace.
pub fn trimmed(s: &str) -> (r: Vec<char>)
    ensures
        r@ == trim(s@),
{
    let cs = chars_of(s);
    slice_to_vec(trim_of(cs.as_slice()))
}

/// The characters of `s` that are not whitespace, in order.
pub open spec fn ink(s: Seq<char>) -> Seq<char>
    decreases s.len(),
{
    if s.len() == 0 {
        seq![]
    } else if white(s.last()) {
        ink(s.drop_last())
    } else {
        ink(s.drop_last()).push(s.last())
    }
}

/// Trimming the start removes a run of whitespace and nothing else.
pub proof fn lemma_trim_start(s: Seq<char>)
    ensures
        trim_start(s).len() <= s.len(),
        trim_start(s) == s.skip(s.len() - trim_start(s).len()),
        blank(s.take(s.len() - trim_start(s).len())),
        trim_start(s).len() > 0 ==> !white(trim_start(s)[0]),
    decreases s.len(),
{
    if s.len() > 0 && white(s[0]) {
        let rest = s.drop_first();
        lemma_trim_start(rest);
        let t = trim_start(s);
        assert(s.skip(s.len() - t.len()) =~= rest.skip(rest.len() - t.len()));
        let gap = s.take(s.len() - t.len());
        assert forall|i: int| 0 <= i < gap.len() implies white(#[trigger] gap[i]) by {
            if i > 0 {
                assert(gap[i] == rest.take(rest.len() - t.len())[i - 1]);
            }
        }
    } else {
        assert(s.skip(0) =~= s);
    }
}

/// Trimming the end removes a run of whitespace and nothing else.
pub proof fn lemma_trim_end(s: Seq<char>)
    ensures
        trim_end(s).len() <= s.len(),
        trim_end(s) == s.take(trim_end(s).len() as int),
        blank(s.skip(trim_end(s).len() as int)),
        trim_end(s).len() > 0 ==> !white(trim_end(s).last()),
    decreases s.len(),
{
    if s.len() > 0 && white(s.last()) {
        let rest = s.drop_last();
        lemma_trim_end(rest);
        let t = trim_end(s);
        assert(s.take(t.len() as int) =~= rest.take(t.len() as int));
        let gap = s.skip(t.len() as int);
        assert forall|i: int| 0 <= i < gap.len() implies white(#[trigger] gap[i]) by {
            if i < gap.len() - 1 {
                assert(gap[i] == rest.skip(t.len() as int)[i]);
            }
        }
    } else {
        assert(s.take(s.len() as int) =~= s);
    }
}

/// What trimming leaves is a run of `s` with no whitespace at its ends, and it is empty
/// exactly when `s` is blank.
pub proof fn lemma_trim(s: Seq<char>)
    ensures
        trim(s).len() <= s.len(),
        trim(s).len() > 0 ==> !white(trim(s)[0]) && !white(trim(s).last()),
        trim(s).len() == 0 <==> blank(s),
{
    let a = trim_start(s);
    let b = trim_end(a);
    lemma_trim_start(s);
    lemma_trim_end(a);
    if b.len() > 0 {
        assert(b[0] == a[0]);
        assert(s[s.len() - a.len()] == a[0]);
        assert(!blank(s));
    } else {
        if a.len() > 0 {
            assert(a.skip(0)[0] == a[0]);
            assert(false);
        }
        assert(s.take(s.len() as int) =~= s);
    }
}

/// Text with no whitespace at its ends is its own trimming.
pub proof fn lemma_trim_fixed(s: Seq<char>)
    requires
        s.len() > 0 ==> !white(s[0]) && !white(s.last()),
    ensures
        trim_start(s) == s,
        trim_end(s) == s,
        trim(s) == s,
{
}

/// Trimming twice is trimming once.
pub proof fn lemma_trim_idempotent(s: Seq<char>)
    ensures
        trim(trim(s)) == trim(s),
{
    lemma_trim(s);
    lemma_trim_fixed(trim(s));
}

/// The ink of two texts in a row is the ink of the first, then that of the second.
pub proof fn lemma_ink_add(a: Seq<char>, b: Seq<char>)
    ensures
        ink(a + b) == ink(a) + ink(b),
    decreases b.len(),
{
    if b.len() == 0 {
        assert(a + b =~= a);
        assert(ink(a) + ink(b) =~= ink(a));
    } else {
        lemma_ink_add(a, b.drop_last());
        assert((a + b).drop_last() =~= a + b.drop_last());
        assert(ink(a + b) =~= ink(a) + ink(b));
    }
}

/// Blank text has no ink.
pub proof fn lemma_ink_blank(s: Seq<char>)
    requires
        blank(s),
    ensures
        ink(s) == Seq::<char>::empty(),
    decreases s.len(),
{
    if s.len() > 0 {
        assert(white(s[s.len() - 1]));
        assert forall|i: int| 0 <= i < s.drop_last().len() implies white(#[trigger] s.drop_last()[i]) by {
            assert(white(s[i]));
        }
        lemma_ink_blank(s.drop_last());
    }
}

/// Trimming keeps every character that is not whitespace.
pub proof fn lemma_ink_trim(s: Seq<char>)
    ensures
        ink(trim_start(s)) == ink(s),
        ink(trim_end(s)) == ink(s),
        ink(trim(s)) == ink(s),
{
    lemma_ink_trim_start(s);
    lemma_ink_trim_end(s);
    lemma_ink_trim_end(trim_start(s));
}

proof fn lemma_ink_trim_start(s: Seq<char>)
    ensures
        ink(trim_start(s)) == ink(s),
{
    lemma_trim_start(s);
    let k = s.len() - trim_start(s).len();
    lemma_ink_blank(s.take(k));
    lemma_ink_add(s.take(k), s.skip(k));
    assert(s.take(k) + s.skip(k) =~= s);
    assert(Seq::<char>::empty() + ink(s.skip(k)) =~= ink(s.skip(k)));
}

proof fn lemma_ink_trim_end(s: Seq<char>)
    ensures
        ink(trim_end(s)) == ink(s),
{
    lemma_trim_end(s);
    let k = trim_end(s).len() as int;
    lemma_ink_blank(s.skip(k));
    lemma_ink_add(s.take(k), s.skip(k));
    assert(s.take(k) + s.skip(k) =~= s);
    assert(ink(s.take(k)) + Seq::<char>::empty() =~= ink(s.take(k)));
}

/// An ASCII capital in lower case; every other character as it is.
pub open spec fn lower(c: char) -> char {
    if 'A' <= c <= 'Z' {
        (c as u32 + 32) as char
    } else {
        c
    }
}

/// `s` with its ASCII capitals in lower case.
pub open spec fn ascii_lower(s: Seq<char>) -> Seq<char> {
    s.map_values(|c: char| lower(c))
}

/// `c`, in lower case if it is an ASCII capital.
pub fn lower_of(c: char) -> (r: char)
    ensures
        r == lower(c),
{
    if 'A' <= c && c <= 'Z' {
        (c as u8 + 32) as char
    } else {
        c
    }
}

/// `cs` with its ASCII capitals in lower case.
pub fn ascii_lower_of(cs: &[char]) -> (r: Vec<char>)
    ensures
        r@ == ascii_lower(cs@),
{
    let mut out: Vec<char> = Vec::new();
    let mut i: usize = 0;
    while i < cs.len()
        invariant
            i <= cs.len(),
            out@ == ascii_lower(cs@.take(i as int)),
        decreases cs.len() - i,
    {
        out.push(lower_of(cs[i]));
        i += 1;
        assert(out@ =~= ascii_lower(cs@.take(i as int)));
    }
    assert(cs@.take(i as int) =~= cs@);
    out
}

/// Whether the characters of `cs` spell the string `word`.
pub fn spells(cs: &[char], word: &str) -> (r: bool)
    ensures
        r == (cs@ == word@),
{
    let other = chars_of(word);
    same(cs, other.as_slice())
}

/// Whether two runs of characters are the same.
pub fn same(a: &[char], b: &[char]) -> (r: bool)
    ensures
        r == (a@ == b@),
{
    if a.len() != b.len() {
        return false;
    }
    let mut i: usize = 0;
    while i < a.len()
        invariant
            i <= a.len(),
            a.len() == b.len(),
            forall|j: int| 0 <= j < i ==> a@[j] == b@[j],
        decreases a.len() - i,
    {
        if a[i] != b[i] {
            return false;
        }
        i += 1;
    }
    assert(a@ =~= b@);
    true
}

/// Appends the characters of `more` to `out`.
pub fn append(out: &mut Vec<char>, more: &[char])
    ensures
        final(out)@ == old(out)@ + more@,
{
    let mut i: usize = 0;
    assert(old(out)@ + more@.take(0) =~= old(out)@);
    while i < more.len()
        invariant
            i <= more.len(),
            out@ == old(out)@ + more@.take(i as int),
        decreases more.len() - i,
    {
        out.push(more[i]);
        i += 1;
        assert(out@ =~= old(out)@ + more@.take(i as int));
    }
    assert(more@.take(i as int) =~= more@);
}

/// Appends the characters of a string to `out`.
pub fn append_str(out: &mut Vec<char>, more: &str)
    ensures
        final(out)@ == old(out)@ + more@,
{
    let cs = chars_of(more);
    append(out, cs.as_slice());
}

/// The words of `s` with a single space between neighbours: each run of whitespace inside
/// `s` becomes one space, and the runs at its ends vanish.
pub open spec fn squeeze(s: Seq<char>) -> Seq<char>
    decreases s.len(),
{
    if s.len() == 0 {
        seq![]
    } else {
        let before = squeeze(s.drop_last());
        if white(s.last()) {
            before
        } else if before.len() > 0 && white(s[s.len() - 2]) {
            before.push(' ').push(s.last())
        } else {
            before.push(s.last())
        }
    }
}

/// The only whitespace in `s` is single spaces between words.
pub open spec fn tidy(s: Seq<char>) -> bool {
    forall|i: int|
        0 <= i < s.len() && white(#[trigger] s[i]) ==> {
            &&& s[i] == ' '
            &&& 0 < i < s.len() - 1
            &&& !white(s[i - 1])
            &&& !white(s[i + 1])
        }
}

/// `cs` with its whitespace squeezed to single spaces between words.
pub fn squeeze_of(cs: &[char]) -> (r: Vec<char>)
    ensures
        r@ == squeeze(cs@),
{
    let mut out: Vec<char> = Vec::new();
    let mut i: usize = 0;
    while i < cs.len()
        invariant
            i <= cs.len(),
            out@ == squeeze(cs@.take(i as int)),
        decreases cs.len() - i,
    {
        assert(cs@.take(i + 1).drop_last() =~= cs@.take(i as int));
        let c = cs[i];
        if !is_white(c) {
            if out.len() > 0 && i > 0 && is_white(cs[i - 1]) {
                out.push(' ');
            }
            out.push(c);
        }
        i += 1;
    }
    assert(cs@.take(i as int) =~= cs@);
    out
}

/// Squeezing leaves tidy text, keeps all the ink, and leaves nothing exactly when there
/// was none.
pub proof fn lemma_squeeze(s: Seq<char>)
    ensures
        tidy(squeeze(s)),
        ink(squeeze(s)) == ink(s),
        squeeze(s).len() == 0 <==> blank(s),
        squeeze(s).len() > 0 ==> !white(squeeze(s)[0]) && !white(squeeze(s).last()),
    decreases s.len(),
{
    if s.len() > 0 {
        let front = s.drop_last();
        let before = squeeze(front);
        let after = squeeze(s);
        lemma_squeeze(front);
        if white(s.last()) && blank(front) {
            assert forall|i: int| 0 <= i < s.len() implies white(#[trigger] s[i]) by {
                if i < front.len() {
                    assert(white(front[i]));
                }
            }
        }
        if blank(s) {
            assert forall|i: int| 0 <= i < front.len() implies white(#[trigger] front[i]) by {
                assert(white(s[i]));
            }
            assert(white(s[s.len() - 1]));
        }
        if !white(s.last()) {
            let spaced = before.push(' ');
            assert(!white(before.push(s.last()).last()));
            assert(before.push(s.last()).drop_last() =~= before);
            assert(spaced.push(s.last()).drop_last() =~= spaced);
            assert(spaced.drop_last() =~= before);
            reveal_with_fuel(ink, 3);
            assert forall|i: int| 0 <= i < after.len() && white(#[trigger] after[i]) implies {
                &&& after[i] == ' '
                &&& 0 < i < after.len() - 1
                &&& !white(after[i - 1])
                &&& !white(after[i + 1])
            } by {
                if i < before.len() {
                    assert(white(before[i]));
                }
            }
        }
    }
}

/// The digit `d` as a character.
pub open spec fn digit(d: nat) -> char {
    (0x30 + d) as char
}

/// `n` in decimal, without leading zeros.
pub open spec fn decimal(n: nat) -> Seq<char>
    decreases n,
{
    if n < 10 {
        seq![digit(n)]
    } else {
        decimal(n / 10).push(digit(n % 10))
    }
}

/// `n` in decimal, with leading zeros up to `width` characters.
pub open spec fn padded(n: nat, width: nat) -> Seq<char> {
    let d = decimal(n);
    let zeros = if d.len() < width {
        (width - d.len()) as nat
    } else {
        0
    };
    Seq::new(zeros, |i: int| '0') + d
}

/// The digit `d` as a character.
pub fn digit_of(d: u64) -> (r: char)
    requires
        d < 10,
    ensures
        r == digit(d as nat),
{
    (0x30 + d as u8) as char
}

/// `n` in decimal.
pub fn decimal_of(n: u64) -> (r: Vec<char>)
    ensures
        r@ == decimal(n as nat),
    decreases n,
{
    if n < 10 {
        let mut out: Vec<char> = Vec::new();
        out.push(digit_of(n));
        assert(out@ =~= seq![digit(n as nat)]);
        out
    } else {
        let mut out = decimal_of(n / 10);
        out.push(digit_of(n % 10));
        out
    }
}

/// `n` in decimal, with leading zeros up to `width` characters.
pub fn padded_of(n: u64, width: usize) -> (r: Vec<char>)
    ensures
        r@ == padded(n as nat, width as nat),
{
    let d = decimal_of(n);
    let mut out: Vec<char> = Vec::new();
    let zeros: usize = if d.len() < width {
        width - d.len()
    } else {
        0
    };
    let mut i: usize = 0;
    while i < zeros
        invariant
            i <= zeros,
            out@ == Seq::new(i as nat, |i: int| '0'),
        decreases zeros - i,
    {
        out.push('0');
        i += 1;
        assert(out@ =~= Seq::new(i as nat, |i: int| '0'));
    }
    append(&mut out, d.as_slice());
    out
}

/// The texts held by a vector of character runs.
pub open spec fn texts(v: Seq<Vec<char>>) -> Seq<Seq<char>> {
    v.map_values(|x: Vec<char>| x@)
}

/// `parts` in a row, with `sep` between neighbours.
pub open spec fn join(parts: Seq<Seq<char>>, sep: Seq<char>) -> Seq<char>
    decreases parts.len(),
{
    if parts.len() == 0 {
        seq![]
    } else if parts.len() == 1 {
        parts[0]
    } else {
        join(parts.drop_last(), sep) + sep + parts.last()
    }
}

/// `parts` in a row, with `sep` between neighbours.
pub fn join_of(parts: &[Vec<char>], sep: char) -> (r: Vec<char>)
    ensures
        r@ == join(texts(parts@), seq![sep]),
{
    let mut out: Vec<char> = Vec::new();
    let mut i: usize = 0;
    while i < parts.len()
        invariant
            i <= parts.len(),
            out@ == join(texts(parts@.take(i as int)), seq![sep]),
        decreases parts.len() - i,
    {
        assert(texts(parts@.take(i + 1)).drop_last() =~= texts(parts@.take(i as int)));
        let ghost before = out@;
        if i > 0 {
            out.push(sep);
            assert(out@ =~= before + seq![sep]);
        }
        append(&mut out, parts[i].as_slice());
        i += 1;
        assert(out@ =~= join(texts(parts@.take(i as int)), seq![sep]));
    }
    assert(parts@.take(i as int) =~= parts@);
    out
}

/// The ink of joined parts is the ink of the parts, when the separator has none.
pub proof fn lemma_ink_join(parts: Seq<Seq<char>>, sep: Seq<char>)
    requires
        blank(sep),
    ensures
        ink(join(parts, sep)) == ink(join(parts, seq![])),
    decreases parts.len(),
{
    if parts.len() > 1 {
        let front = parts.drop_last();
        lemma_ink_join(front, sep);
        lemma_ink_add(join(front, sep) + sep, parts.last());
        lemma_ink_add(join(front, sep), sep);
        lemma_ink_blank(sep);
        let none = Seq::<char>::empty();
        lemma_ink_add(join(front, none) + none, parts.last());
        lemma_ink_add(join(front, none), none);
        assert(ink(join(front, none) + none) =~= ink(join(front, none)));
        assert(ink(join(front, sep) + sep) =~= ink(join(front, sep)));
    }
}

/// The texts of a vector of strings.
pub open spec fn strings(v: Seq<String>) -> Seq<Seq<char>> {
    v.map_values(|x: String| x@)
}

/// The strings made of runs of characters, one for one.
pub fn strings_of(parts: &[Vec<char>]) -> (r: Vec<String>)
    ensures
        strings(r@) == texts(parts@),
{
    let mut out: Vec<String> = Vec::new();
    let mut i: usize = 0;
    while i < parts.len()
        invariant
            i <= parts.len(),
            strings(out@) == texts(parts@.take(i as int)),
        decreases parts.len() - i,
    {
        let ghost before = strings(out@);
        out.push(string_of(parts[i].as_slice()));
        i += 1;
        assert(texts(parts@.take(i as int)) =~= texts(parts@.take(i - 1)).push(parts@[i - 1]@));
        assert(strings(out@) =~= before.push(parts@[i - 1]@));
    }
    assert(parts@.take(i as int) =~= parts@);
    out
}

/// Parts in a row, one more in front.
pub proof fn lemma_join_first(first: Seq<char>, rest: Seq<Seq<char>>)
    ensures
        join(seq![first] + rest, seq![]) == first + join(rest, seq![]),
    decreases rest.len(),
{
    let all = seq![first] + rest;
    if rest.len() == 0 {
        assert(all =~= seq![first]);
        assert(first + join(rest, seq![]) =~= first);
    } else {
        assert(all.drop_last() =~= seq![first] + rest.drop_last());
        lemma_join_first(first, rest.drop_last());
        let none = Seq::<char>::empty();
        assert(all.last() == rest.last());
        if rest.len() == 1 {
            assert(rest.drop_last() =~= seq![]);
            assert(first + none + none + rest[0] =~= first + rest[0]);
        } else {
            assert(first + join(rest.drop_last(), none) + none + rest.last() =~= first + (join(
                rest.drop_last(),
                none,
            ) + none + rest.last()));
        }
    }
}

/// How often `c` occurs in `s`.
pub open spec fn occurrences(s: Seq<char>, c: char) -> nat
    decreases s.len(),
{
    if s.len() == 0 {
        0
    } else if s.last() == c {
        occurrences(s.drop_last(), c) + 1
    } else {
        occurrences(s.drop_last(), c)
    }
}

/// Occurrences in two texts in a row add up.
pub proof fn lemma_occurrences_add(a: Seq<char>, b: Seq<char>, c: char)
    ensures
        occurrences(a + b, c) == occurrences(a, c) + occurrences(b, c),
    decreases b.len(),
{
    if b.len() == 0 {
        assert(a + b =~= a);
    } else {
        assert((a + b).drop_last() =~= a + b.drop_last());
        lemma_occurrences_add(a, b.drop_last(), c);
    }
}

/// A character occurs no more often in a part of a text than in the whole.
pub proof fn lemma_occurrences_trim(s: Seq<char>, c: char)
    ensures
        occurrences(trim_start(s), c) <= occurrences(s, c),
        occurrences(trim_end(s), c) <= occurrences(s, c),
        occurrences(trim(s), c) <= occurrences(s, c),
{
    lemma_trim_start(s);
    let a = s.len() - trim_start(s).len();
    assert(s.take(a) + s.skip(a) =~= s);
    lemma_occurrences_add(s.take(a), s.skip(a), c);
    lemma_trim_end(s);
    let b = trim_end(s).len() as int;
    assert(s.take(b) + s.skip(b) =~= s);
    lemma_occurrences_add(s.take(b), s.skip(b), c);
    let t = trim_start(s);
    lemma_trim_end(t);
    let d = trim_end(t).len() as int;
    assert(t.take(d) + t.skip(d) =~= t);
    lemma_occurrences_add(t.take(d), t.skip(d), c);
}

/// A character that does not occur in parts put in a row occurs in none of them.
pub proof fn lemma_occurrences_parts(parts: Seq<Seq<char>>, c: char, i: int)
    requires
        0 <= i < parts.len(),
    ensures
        occurrences(parts[i], c) <= occurrences(join(parts, seq![]), c),
    decreases parts.len(),
{
    if parts.len() > 1 {
        let front = parts.drop_last();
        let none = Seq::<char>::empty();
        lemma_occurrences_add(join(front, none) + none, parts.last(), c);
        lemma_occurrences_add(join(front, none), none, c);
        if i < front.len() {
            lemma_occurrences_parts(front, c, i);
            assert(front[i] == parts[i]);
        }
    }
}

/// Joining adds no occurrence but those in the separators.
pub proof fn lemma_occurrences_join(parts: Seq<Seq<char>>, sep: Seq<char>, c: char)
    ensures
        parts.len() > 0 ==> occurrences(join(parts, sep), c) == occurrences(join(parts, seq![]), c)
            + (parts.len() - 1) * occurrences(sep, c),
    decreases parts.len(),
{
    if parts.len() == 1 {
        let m = occurrences(sep, c) as int;
        assert((1 - 1) * m == 0) by (nonlinear_arith);
    } else if parts.len() > 1 {
        let front = parts.drop_last();
        lemma_occurrences_join(front, sep, c);
        lemma_occurrences_add(join(front, sep) + sep, parts.last(), c);
        lemma_occurrences_add(join(front, sep), sep, c);
        let none = Seq::<char>::empty();
        lemma_occurrences_add(join(front, none) + none, parts.last(), c);
        lemma_occurrences_add(join(front, none), none, c);
        let n = parts.len() as int;
        let m = occurrences(sep, c) as int;
        assert((n - 2) * m + m == (n - 1) * m) by (nonlinear_arith);
    }
}

/// Two strings in a row.
pub fn concat(a: &str, b: &str) -> (r: String)
    ensures
        r@ == a@ + b@,
{
    let mut out = chars_of(a);
    append_str(&mut out, b);
    string_of(out.as_slice())
}

/// Three strings in a row.
pub fn concat3(a: &str, b: &str, c: &str) -> (r: String)
    ensures
        r@ == a@ + b@ + c@,
{
    let mut out = chars_of(a);
    append_str(&mut out, b);
    append_str(&mut out, c);
    string_of(out.as_slice())
}

/// The text of an optional string.
pub open spec fn opt(s: Option<String>) -> Option<Seq<char>> {
    match s {
        Some(t) => Some(t@),
        None => None,
    }
}

/// A second optional string with the same text.
pub fn opt_clone(s: &Option<String>) -> (r: Option<String>)
    ensures
        opt(r) == opt(*s),
{
    match s {
        Some(t) => Some(t.clone()),
        None => None,
    }
}

/// Whether `a` comes before `b` in the order of their characters.
pub open spec fn lex_before(a: Seq<char>, b: Seq<char>) -> bool
    decreases a.len(),
{
    if b.len() == 0 {
        false
    } else if a.len() == 0 {
        true
    } else if a[0] != b[0] {
        a[0] < b[0]
    } else {
        lex_before(a.drop_first(), b.drop_first())
    }
}

/// Whether `a` comes before `b` in the order of their characters.
pub fn comes_before(a: &[char], b: &[char]) -> (r: bool)
    ensures
        r == lex_before(a@, b@),
{
    let mut i: usize = 0;
    assert(a@.skip(0) =~= a@);
    assert(b@.skip(0) =~= b@);
    while i < a.len() && i < b.len()
        invariant
            i <= a@.len(),
            i <= b@.len(),
            lex_before(a@, b@) == lex_before(a@.skip(i as int), b@.skip(i as int)),
        decreases a@.len() - i,
    {
        if a[i] != b[i] {
            return a[i] < b[i];
        }
        assert(a@.skip(i as int).drop_first() =~= a@.skip(i + 1));
        assert(b@.skip(i as int).drop_first() =~= b@.skip(i + 1));
        i += 1;
    }
    i < b.len()
}

/// Nothing comes before itself, of two different texts one comes before the other, and the
/// order is transitive.
pub proof fn lemma_lex_order(a: Seq<char>, b: Seq<char>, c: Seq<char>)
    ensures
        !lex_before(a, a),
        !lex_before(a, b) && !lex_before(b, a) ==> a == b,
        lex_before(a, b) ==> !lex_before(b, a),
        lex_before(a, b) && lex_before(b, c) ==> lex_before(a, c),
        !lex_before(b, a) && !lex_before(c, b) ==> !lex_before(c, a),
    decreases a.len() + b.len() + c.len(),
{
    if a.len() > 0 && b.len() > 0 && c.len() > 0 {
        lemma_lex_order(a.drop_first(), b.drop_first(), c.drop_first());
        if a[0] == b[0] && a.drop_first() == b.drop_first() {
            assert(a =~= seq![a[0]] + a.drop_first());
            assert(b =~= seq![b[0]] + b.drop_first());
        }
    } else if a.len() > 0 && b.len() > 0 {
        lemma_lex_order(a.drop_first(), b.drop_first(), c);
        if a[0] == b[0] && a.drop_first() == b.drop_first() {
            assert(a =~= seq![a[0]] + a.drop_first());
            assert(b =~= seq![b[0]] + b.drop_first());
        }
    } else if a.len() > 0 {
        lemma_lex_order(a.drop_first(), b, c);
    } else if b.len() == 0 {
        assert(a =~= b);
    }
}

/// Whether two strings hold the same text.
pub fn same_text(a: &str, b: &str) -> (r: bool)
    ensures
        r == (a@ == b@),
{
    spells(chars_of(a).as_slice(), b)
}

/// The lines of `s`: what stands before, between and after its line breaks.
pub open spec fn lines(s: Seq<char>) -> Seq<Seq<char>>
    decreases s.len(),
{
    if s.len() == 0 {
        seq![seq![]]
    } else {
        let before = lines(s.drop_last());
        if s.last() == '\n' {
            before.push(seq![])
        } else {
            before.drop_last().push(before.last().push(s.last()))
        }
    }
}

proof fn lemma_lines_nonempty(s: Seq<char>)
    ensures
        lines(s).len() > 0,
    decreases s.len(),
{
    if s.len() > 0 {
        lemma_lines_nonempty(s.drop_last());
    }
}

/// The lines of `cs`.
pub fn lines_of(cs: &[char]) -> (r: Vec<Vec<char>>)
    ensures
        texts(r@) == lines(cs@),
{
    let mut done: Vec<Vec<char>> = Vec::new();
    let mut line: Vec<char> = Vec::new();
    let mut i: usize = 0;
    assert(texts(done@).push(line@) =~= seq![seq![]]);
    while i < cs.len()
        invariant
            i <= cs@.len(),
            texts(done@).push(line@) == lines(cs@.take(i as int)),
        decreases cs@.len() - i,
    {
        assert(cs@.take(i + 1).drop_last() =~= cs@.take(i as int));
        let ghost before = texts(done@);
        let ghost so_far = line@;
        assert(before.push(so_far).drop_last() =~= before);
        if cs[i] == '\n' {
            done.push(line);
            line = Vec::new();
            assert(texts(done@) =~= before.push(so_far));
            assert(line@ =~= seq![]);
        } else {
            line.push(cs[i]);
        }
        i += 1;
    }
    assert(cs@.take(i as int) =~= cs@);
    let ghost before = texts(done@);
    let ghost last = line@;
    done.push(line);
    assert(texts(done@) =~= before.push(last));
    done
}

/// Text without line breaks continues the last line.
proof fn lemma_lines_append(a: Seq<char>, b: Seq<char>)
    requires
        occurrences(b, '\n') == 0,
    ensures
        lines(a + b) == lines(a).drop_last().push(lines(a).last() + b),
    decreases b.len(),
{
    lemma_lines_nonempty(a);
    if b.len() == 0 {
        assert(a + b =~= a);
        assert(lines(a).last() + b =~= lines(a).last());
        assert(lines(a).drop_last().push(lines(a).last()) =~= lines(a));
    } else {
        lemma_lines_append(a, b.drop_last());
        assert((a + b).drop_last() =~= a + b.drop_last());
        let front = lines(a + b.drop_last());
        assert(front.drop_last() =~= lines(a).drop_last());
        assert((lines(a).last() + b.drop_last()).push(b.last()) =~= lines(a).last() + b);
    }
}

/// Joining lines with line breaks and taking the lines gives them back.
pub proof fn lemma_lines_join(parts: Seq<Seq<char>>)
    requires
        parts.len() > 0,
        forall|i: int| 0 <= i < parts.len() ==> occurrences(#[trigger] parts[i], '\n') == 0,
    ensures
        lines(join(parts, seq!['\n'])) == parts,
    decreases parts.len(),
{
    let none = Seq::<char>::empty();
    if parts.len() == 1 {
        lemma_lines_append(none, parts[0]);
        assert(none + parts[0] =~= parts[0]);
        assert(lines(none).drop_last() =~= seq![]);
        assert(lines(none).last() + parts[0] =~= parts[0]);
        assert(lines(parts[0]) =~= parts);
    } else {
        let front = parts.drop_last();
        assert forall|i: int| 0 <= i < front.len() implies occurrences(#[trigger] front[i], '\n')
            == 0 by {
            assert(front[i] == parts[i]);
        }
        lemma_lines_join(front);
        let head = join(front, seq!['\n']) + seq!['\n'];
        assert(head.drop_last() =~= join(front, seq!['\n']));
        assert(lines(head) == front.push(none));
        assert(occurrences(parts[parts.len() - 1], '\n') == 0);
        lemma_lines_append(head, parts.last());
        assert(front.push(none).drop_last() =~= front);
        assert(none + parts.last() =~= parts.last());
        assert(front.push(parts.last()) =~= parts);
    }
}

/// Where `c` first occurs in `s`, or the length of `s`.
pub open spec fn first_index(s: Seq<char>, c: char) -> int
    decreases s.len(),
{
    if s.len() == 0 || s[0] == c {
        0
    } else {
        first_index(s.drop_first(), c) + 1
    }
}

/// Where `c` first occurs in `cs`, or the length of `cs`.
pub fn first_index_of(cs: &[char], c: char) -> (r: usize)
    ensures
        r == first_index(cs@, c),
        r <= cs@.len(),
        r < cs@.len() ==> cs@[r as int] == c,
{
    let mut i: usize = 0;
    assert(cs@.skip(0) =~= cs@);
    while i < cs.len()
        invariant
            i <= cs@.len(),
            first_index(cs@, c) == i + first_index(cs@.skip(i as int), c),
        decreases cs@.len() - i,
    {
        if cs[i] == c {
            return i;
        }
        assert(cs@.skip(i as int).drop_first() =~= cs@.skip(i + 1));
        i += 1;
    }
    i
}

/// Where a character first occurs lies in front of which it does not occur.
pub proof fn lemma_first_index(s: Seq<char>, c: char, k: int)
    requires
        0 <= k <= s.len(),
        forall|i: int| 0 <= i < k ==> #[trigger] s[i] != c,
        k < s.len() ==> s[k] == c,
    ensures
        first_index(s, c) == k,
    decreases s.len(),
{
    if s.len() > 0 && k > 0 {
        let rest = s.drop_first();
        assert forall|i: int| 0 <= i < k - 1 implies #[trigger] rest[i] != c by {
            assert(s[i + 1] != c);
        }
        assert(s[0] != c);
        lemma_first_index(rest, c, k - 1);
    }
}

/// Whether `c` is an ASCII digit.
pub open spec fn is_digit(c: char) -> bool {
    '0' <= c <= '9'
}

/// Whether every character of `s` is an ASCII digit.
pub open spec fn all_digits(s: Seq<char>) -> bool {
    forall|i: int| 0 <= i < s.len() ==> is_digit(#[trigger] s[i])
}

/// The number that digits stand for.
pub open spec fn value(s: Seq<char>) -> nat
    decreases s.len(),
{
    if s.len() == 0 {
        0
    } else {
        value(s.drop_last()) * 10 + (s.last() as nat - 0x30) as nat
    }
}

/// The number that `s` spells in decimal, with a plus sign in front or without: nothing where
/// anything else stands in it, or where the number is larger than `max`.
pub open spec fn number(s: Seq<char>, max: nat) -> Option<nat> {
    let digits = if s.len() > 0 && s[0] == '+' {
        s.drop_first()
    } else {
        s
    };
    if digits.len() > 0 && all_digits(digits) && value(digits) <= max {
        Some(value(digits))
    } else {
        None
    }
}

proof fn lemma_value_grows(s: Seq<char>, k: int)
    requires
        all_digits(s),
        0 <= k <= s.len(),
    ensures
        value(s.take(k)) <= value(s),
    decreases s.len() - k,
{
    if k < s.len() {
        lemma_value_grows(s, k + 1);
        assert(s.take(k + 1).drop_last() =~= s.take(k));
        assert(is_digit(s[k]));
    } else {
        assert(s.take(k) =~= s);
    }
}

/// Reads a number in decimal.
pub fn number_of(cs: &[char]) -> (r: Option<usize>)
    ensures
        match r {
            Some(n) => number(cs@, usize::MAX as nat) == Some(n as nat),
            None => number(cs@, usize::MAX as nat) is None,
        },
{
    let digits: &[char] = if cs.len() > 0 && cs[0] == '+' {
        assert(cs@.subrange(1, cs@.len() as int) =~= cs@.drop_first());
        slice_subrange(cs, 1, cs.len())
    } else {
        cs
    };
    if digits.len() == 0 {
        return None;
    }
    let mut n: usize = 0;
    let mut i: usize = 0;
    while i < digits.len()
        invariant
            i <= digits@.len(),
            digits@.len() > 0,
            digits@ == if cs@.len() > 0 && cs@[0] == '+' {
                cs@.drop_first()
            } else {
                cs@
            },
            forall|j: int| 0 <= j < i ==> is_digit(#[trigger] digits@[j]),
            n == value(digits@.take(i as int)),
        decreases digits@.len() - i,
    {
        let c = digits[i];
        if !('0' <= c && c <= '9') {
            assert(!is_digit(digits@[i as int]));
            return None;
        }
        proof {
            assert(digits@.take(i + 1).drop_last() =~= digits@.take(i as int));
        }
        let d: usize = (c as u32 - 0x30) as usize;
        if n > (usize::MAX - d) / 10 {
            proof {
                if all_digits(digits@) {
                    lemma_value_grows(digits@, i + 1);
                }
            }
            return None;
        }
        n = n * 10 + d;
        i += 1;
    }
    assert(digits@.take(i as int) =~= digits@);
    Some(n)
}

proof fn lemma_decimal(n: nat)
    ensures
        decimal(n).len() > 0,
        all_digits(decimal(n)),
        value(decimal(n)) == n,
    decreases n,
{
    reveal_with_fuel(value, 2);
    if n < 10 {
        assert(decimal(n).drop_last() =~= seq![]);
    } else {
        lemma_decimal(n / 10);
        assert(decimal(n).drop_last() =~= decimal(n / 10));
    }
}

/// A number is read back from its decimal form.
pub proof fn decimal_reads_back(n: nat, max: nat)
    requires
        n <= max,
    ensures
        number(decimal(n), max) == Some(n),
        all_digits(decimal(n)),
        decimal(n).len() > 0,
{
    lemma_decimal(n);
    assert(is_digit(decimal(n)[0]));
}

/// `s` without the `c`s at its end.
pub open spec fn without_end(s: Seq<char>, c: char) -> Seq<char>
    decreases s.len(),
{
    if s.len() > 0 && s.last() == c {
        without_end(s.drop_last(), c)
    } else {
        s
    }
}

/// `cs` without the `c`s at its end.
pub fn without_end_of(cs: &[char], c: char) -> (r: &[char])
    ensures
        r@ == without_end(cs@, c),
{
    let mut k: usize = cs.len();
    assert(cs@.take(cs@.len() as int) =~= cs@);
    while k > 0 && cs[k - 1] == c
        invariant
            k <= cs@.len(),
            without_end(cs@, c) == without_end(cs@.take(k as int), c),
        decreases k,
    {
        assert(cs@.take(k as int).drop_last() =~= cs@.take(k - 1));
        k -= 1;
    }
    assert(cs@.take(k as int) =~= cs@.subrange(0, k as int));
    slice_subrange(cs, 0, k)
}

/// What a setting says, if it says anything: its text without whitespace around it.
pub open spec fn given(s: Option<Seq<char>>) -> Option<Seq<char>> {
    match s {
        Some(t) if trim(t).len() > 0 => Some(trim(t)),
        _ => None,
    }
}

/// What a setting says, if it says anything.
pub fn given_of(s: &Option<String>) -> (r: Option<String>)
    ensures
        opt(r) == given(opt(*s)),
{
    match s {
        None => None,
        Some(t) => {
            let cs = trimmed(t);
            if cs.len() == 0 {
                None
            } else {
                Some(string_of(cs.as_slice()))
            }
        },
    }
}

/// The first `n` characters of a text, or all of it.
pub open spec fn head(s: Seq<char>, n: nat) -> Seq<char> {
    if s.len() <= n {
        s
    } else {
        s.take(n as int)
    }
}

/// The first `n` characters of a string, or all of it.
pub fn head_of(s: &str, n: usize) -> (r: String)
    ensures
        r@ == head(s@, n as nat),
{
    let cs = chars_of(s);
    if cs.len() <= n {
        string_of(cs.as_slice())
    } else {
        assert(cs@.take(n as int) =~= cs@.subrange(0, n as int));
        string_of(slice_subrange(cs.as_slice(), 0, n))
    }
}

/// Trimming the end of a text stops at the latest where the text in front of it ends in ink.
pub proof fn lemma_trim_end_add(a: Seq<char>, b: Seq<char>)
    requires
        a.len() > 0,
        !white(a.last()),
    ensures
        trim_end(a + b) == a + trim_end(b),
    decreases b.len(),
{
    if b.len() == 0 {
        assert(a + b =~= a);
        assert(a + trim_end(b) =~= a);
    } else if white(b.last()) {
        assert((a + b).drop_last() =~= a + b.drop_last());
        lemma_trim_end_add(a, b.drop_last());
    }
}

/// The two ends of a text can be trimmed in either order.
pub proof fn lemma_trim_either_order(s: Seq<char>)
    ensures
        trim_start(trim_end(s)) == trim(s),
    decreases s.len(),
{
    lemma_trim_end(s);
    lemma_trim_start(s);
    if s.len() == 0 {
    } else if white(s[0]) {
        let rest = s.drop_first();
        lemma_trim_either_order(rest);
        let t = trim_end(s);
        if t.len() == 0 {
            assert(s.skip(0) =~= s);
            assert(blank(s));
            lemma_trim(s);
            assert(trim_start(t) =~= trim(s));
        } else {
            assert(t[0] == s[0]);
            lemma_trim_end_behind(s);
            assert(t.drop_first() =~= trim_end(rest));
        }
    } else {
        let t = trim_end(s);
        if t.len() == 0 {
            assert(s.skip(0)[0] == s[0]);
        } else {
            assert(t[0] == s[0]);
        }
    }
}

proof fn lemma_trim_end_behind(s: Seq<char>)
    requires
        trim_end(s).len() > 0,
    ensures
        trim_end(s).drop_first() == trim_end(s.drop_first()),
    decreases s.len(),
{
    if s.len() > 0 && white(s.last()) {
        lemma_trim_end_behind(s.drop_last());
        if s.len() > 1 {
            assert(s.drop_first().drop_last() =~= s.drop_last().drop_first());
            assert(s.drop_first().last() == s.last());
        }
    } else if s.len() > 1 {
        assert(s.drop_first().last() == s.last());
    }
}

/// The control characters of Unicode.
pub open spec fn control(c: char) -> bool {
    c as u32 <= 0x1f || 0x7f <= c as u32 <= 0x9f
}

/// Whether `c` is a control character.
pub fn is_control(c: char) -> (r: bool)
    ensures
        r == control(c),
{
    let u: u32 = c as u32;
    u <= 0x1f || (0x7f <= u && u <= 0x9f)
}

/// Where `c` last occurs in `s`, or -1.
pub open spec fn last_index(s: Seq<char>, c: char) -> int
    decreases s.len(),
{
    if s.len() == 0 {
        -1
    } else if s.last() == c {
        s.len() - 1
    } else {
        last_index(s.drop_last(), c)
    }
}

/// How many characters stand in front of the last `c` in `cs`, if there is one.
pub fn last_index_of(cs: &[char], c: char) -> (r: Option<usize>)
    ensures
        match r {
            Some(k) => k == last_index(cs@, c) && k < cs@.len(),
            None => last_index(cs@, c) == -1,
        },
{
    let mut k: usize = cs.len();
    assert(cs@.take(cs@.len() as int) =~= cs@);
    while k > 0
        invariant
            k <= cs@.len(),
            last_index(cs@, c) == last_index(cs@.take(k as int), c),
        decreases k,
    {
        assert(cs@.take(k as int).drop_last() =~= cs@.take(k - 1));
        if cs[k - 1] == c {
            return Some(k - 1);
        }
        k -= 1;
    }
    None
}

/// Ten to the power of `n`.
pub open spec fn pow10(n: nat) -> nat
    decreases n,
{
    if n == 0 {
        1
    } else {
        10 * pow10((n - 1) as nat)
    }
}

/// Digits count by their place: what stands in front counts ten times as much for every digit
/// behind it.
pub proof fn digits_count_by_place(a: Seq<char>, b: Seq<char>)
    ensures
        value(a + b) == value(a) * pow10(b.len()) + value(b),
        forall|c: char| '0' <= c <= '9' ==> #[trigger] value(seq![c]) == c as int - '0' as int,
    decreases b.len(),
{
    assert forall|c: char| '0' <= c <= '9' implies #[trigger] value(seq![c]) == c as int - '0' as int by {
        assert(seq![c].drop_last() =~= seq![]);
        reveal_with_fuel(value, 2);
    }
    if b.len() == 0 {
        assert(a + b =~= a);
        assert(pow10(b.len()) == 1);
        assert(value(a) * 1 == value(a)) by (nonlinear_arith);
    } else {
        let front = b.drop_last();
        digits_count_by_place(a, front);
        assert((a + b).drop_last() =~= a + front);
        let x = value(a) as int;
        let p = pow10(front.len()) as int;
        assert(b.len() == front.len() + 1);
        assert(pow10(b.len()) == 10 * p);
        assert((x * p) * 10 == x * (10 * p)) by (nonlinear_arith);
        assert(value(a) * pow10(b.len()) == x * (10 * p));
        assert((a + b).last() == b.last());
    }
}

/// A number in decimal is digits that stand for it, with no zero in front that it could do
/// without. Padding adds zeros in front, up to the width and no further.
pub proof fn numbers_are_written_in_decimal(n: nat, width: nat)
    ensures
        all_digits(decimal(n)),
        value(decimal(n)) == n,
        decimal(n).len() > 0,
        decimal(n).len() > 1 ==> decimal(n)[0] != '0',
        all_digits(padded(n, width)),
        value(padded(n, width)) == n,
        padded(n, width).len() == if decimal(n).len() < width {
            width
        } else {
            decimal(n).len()
        },
        n < pow10(width) && width > 0 ==> padded(n, width).len() == width,
{
    lemma_decimal(n);
    lemma_decimal_len(n);
    let d = decimal(n);
    let p = padded(n, width);
    let zeros = (p.len() - d.len()) as nat;
    let pad = Seq::new(zeros, |i: int| '0');
    assert(p == pad + d);
    lemma_zeros(pad);
    digits_count_by_place(pad, d);
    assert forall|i: int| 0 <= i < p.len() implies is_digit(#[trigger] p[i]) by {
        if i >= zeros {
            assert(p[i] == d[i - zeros]);
        }
    }
    assert(0 * pow10(d.len()) == 0);
    if n < pow10(width) && width > 0 && d.len() > width {
        lemma_pow10_grows(width, (d.len() - 1) as nat);
    }
}

proof fn lemma_zeros(pad: Seq<char>)
    requires
        forall|i: int| 0 <= i < pad.len() ==> #[trigger] pad[i] == '0',
    ensures
        value(pad) == 0,
    decreases pad.len(),
{
    if pad.len() > 0 {
        assert(pad[pad.len() - 1] == '0');
        assert forall|i: int| 0 <= i < pad.drop_last().len() implies #[trigger] pad.drop_last()[i]
            == '0' by {
            assert(pad[i] == '0');
        }
        lemma_zeros(pad.drop_last());
    }
}

proof fn lemma_pow10_grows(a: nat, b: nat)
    requires
        a <= b,
    ensures
        0 < pow10(a) <= pow10(b),
    decreases b,
{
    if b > a {
        lemma_pow10_grows(a, (b - 1) as nat);
    } else if a > 0 {
        lemma_pow10_grows((a - 1) as nat, (a - 1) as nat);
    }
}

proof fn lemma_decimal_len(n: nat)
    ensures
        decimal(n).len() > 1 ==> decimal(n)[0] != '0' && pow10((decimal(n).len() - 1) as nat) <= n,
    decreases n,
{
    if n >= 10 {
        lemma_decimal_len(n / 10);
        lemma_decimal(n / 10);
        let front = decimal(n / 10);
        assert(decimal(n)[0] == front[0]);
        if front.len() == 1 {
            assert(n / 10 < 10) by {
                if n / 10 >= 10 {
                    lemma_decimal(n / 10 / 10);
                }
            }
            assert(pow10(1) == 10) by {
                reveal_with_fuel(pow10, 2);
            }
        } else {
            assert(pow10(front.len()) == 10 * pow10((front.len() - 1) as nat));
        }
    }
}

/// The words of `s`: its longest runs without whitespace, in order.
pub open spec fn words(s: Seq<char>) -> Seq<Seq<char>>
    decreases s.len(),
{
    if s.len() == 0 {
        seq![]
    } else {
        let before = words(s.drop_last());
        if white(s.last()) {
            before
        } else if before.len() == 0 || white(s[s.len() - 2]) {
            before.push(seq![s.last()])
        } else {
            before.drop_last().push(before.last().push(s.last()))
        }
    }
}

/// Squeezed text is the words, with one space between neighbours.
pub proof fn squeezing_spaces_the_words(s: Seq<char>)
    ensures
        squeeze(s) == join(words(s), seq![' ']),
        words(s).len() == 0 <==> blank(s),
        forall|i: int| 0 <= i < words(s).len() ==> (#[trigger] words(s)[i]).len() > 0,
    decreases s.len(),
{
    lemma_squeeze(s);
    if s.len() > 0 {
        let front = s.drop_last();
        let before = words(front);
        squeezing_spaces_the_words(front);
        lemma_squeeze(front);
        if !white(s.last()) {
            let all = words(s);
            if before.len() == 0 {
                assert(blank(front));
                assert(all =~= seq![seq![s.last()]]);
                assert(all.drop_last() =~= seq![]);
                assert(join(all, seq![' ']) =~= seq![s.last()]);
                assert(squeeze(s) =~= seq![s.last()]);
            } else if white(s[s.len() - 2]) {
                assert(all.drop_last() =~= before);
                assert(join(all, seq![' ']) =~= join(before, seq![' ']) + seq![' '] + seq![s.last()]);
                assert(squeeze(s) =~= join(all, seq![' ']));
            } else {
                assert(all.drop_last() =~= before.drop_last());
                assert(before.last() == before[before.len() - 1]);
                assert(join(all, seq![' ']) =~= join(before, seq![' ']).push(s.last()));
            }
        }
    } else {
        assert(squeeze(s) =~= join(words(s), seq![' ']));
    }
}

/// A letter changes its case to the lower one, and nothing else changes.
pub proof fn only_capitals_are_lowered(s: Seq<char>)
    ensures
        ascii_lower(s).len() == s.len(),
        forall|i: int|
            #![trigger ascii_lower(s)[i]]
            0 <= i < s.len() ==> if 'A' <= s[i] <= 'Z' {
                ascii_lower(s)[i] as int == s[i] as int + 32
            } else {
                ascii_lower(s)[i] == s[i]
            },
{
}

/// What is dropped from the end of `s` is a run of `c`, all of it and nothing else.
pub proof fn only_the_end_is_dropped(s: Seq<char>, c: char)
    ensures
        ({
            let n = without_end(s, c).len() as int;
            &&& n <= s.len()
            &&& without_end(s, c) == s.take(n)
            &&& n > 0 ==> s[n - 1] != c
            &&& forall|i: int| n <= i < s.len() ==> #[trigger] s[i] == c
        }),
    decreases s.len(),
{
    if s.len() > 0 && s.last() == c {
        let front = s.drop_last();
        only_the_end_is_dropped(front, c);
        let n = without_end(s, c).len() as int;
        assert(front.take(n) =~= s.take(n));
        assert forall|i: int| n <= i < s.len() implies #[trigger] s[i] == c by {
            if i < front.len() {
                assert(front[i] == c);
            }
        }
    } else {
        assert(s.take(s.len() as int) =~= s);
    }
}

/// Text is given where there is any that is not blank, and then without the whitespace around
/// it. The front of a text is all of it, or as many characters as were asked for.
pub proof fn blank_text_is_not_given(s: Seq<char>, n: nat)
    ensures
        given(None) is None,
        blank(s) ==> given(Some(s)) is None,
        !blank(s) ==> given(Some(s)) == Some(trim(s)),
        head(s, n).len() == if n < s.len() {
            n
        } else {
            s.len()
        },
        head(s, n).is_prefix_of(s),
{
    lemma_trim(s);
}

/// Whitespace is the twenty-five characters that Unicode lists as such, and control characters
/// are the sixty-five of its two control blocks.
pub proof fn whitespace_is_as_listed(c: char)
    ensures
        white(c) <==> seq![
            '\u{9}',
            '\u{a}',
            '\u{b}',
            '\u{c}',
            '\u{d}',
            ' ',
            '\u{85}',
            '\u{a0}',
            '\u{1680}',
            '\u{2000}',
            '\u{2001}',
            '\u{2002}',
            '\u{2003}',
            '\u{2004}',
            '\u{2005}',
            '\u{2006}',
            '\u{2007}',
            '\u{2008}',
            '\u{2009}',
            '\u{200a}',
            '\u{2028}',
            '\u{2029}',
            '\u{202f}',
            '\u{205f}',
            '\u{3000}',
        ].contains(c),
        control(c) <==> c < ' ' || '\u{7f}' <= c <= '\u{9f}',
{
    let all = seq![
        '\u{9}',
        '\u{a}',
        '\u{b}',
        '\u{c}',
        '\u{d}',
        ' ',
        '\u{85}',
        '\u{a0}',
        '\u{1680}',
        '\u{2000}',
        '\u{2001}',
        '\u{2002}',
        '\u{2003}',
        '\u{2004}',
        '\u{2005}',
        '\u{2006}',
        '\u{2007}',
        '\u{2008}',
        '\u{2009}',
        '\u{200a}',
        '\u{2028}',
        '\u{2029}',
        '\u{202f}',
        '\u{205f}',
        '\u{3000}',
    ];
    let u = c as u32;
    if 0x9 <= u <= 0xD {
        assert(all[u - 9] == c);
    }
    if u == 0x20 {
        assert(all[5] == c);
    }
    if u == 0x85 {
        assert(all[6] == c);
    }
    if u == 0xA0 {
        assert(all[7] == c);
    }
    if u == 0x1680 {
        assert(all[8] == c);
    }
    if 0x2000 <= u <= 0x200A {
        assert(all[u - 0x2000 + 9] == c);
    }
    if u == 0x2028 {
        assert(all[20] == c);
    }
    if u == 0x2029 {
        assert(all[21] == c);
    }
    if u == 0x202F {
        assert(all[22] == c);
    }
    if u == 0x205F {
        assert(all[23] == c);
    }
    if u == 0x3000 {
        assert(all[24] == c);
    }
}

/// Of two texts the one with the smaller character at the first place where they differ comes
/// first, and a text comes before every longer one that begins with it.
pub proof fn texts_are_ordered_by_their_first_difference(
    common: Seq<char>,
    a: char,
    b: char,
    x: Seq<char>,
    y: Seq<char>,
)
    requires
        a < b,
    ensures
        lex_before(common + seq![a] + x, common + seq![b] + y),
        !lex_before(common + seq![b] + y, common + seq![a] + x),
        lex_before(common, common + seq![a] + x),
        !lex_before(common + seq![a] + x, common),
    decreases common.len(),
{
    let p = common + seq![a] + x;
    let q = common + seq![b] + y;
    if common.len() > 0 {
        let rest = common.drop_first();
        texts_are_ordered_by_their_first_difference(rest, a, b, x, y);
        assert(p.drop_first() =~= rest + seq![a] + x);
        assert(q.drop_first() =~= rest + seq![b] + y);
        assert(p[0] == common[0] && q[0] == common[0]);
    } else {
        assert(p[0] == a && q[0] == b);
    }
}

/// A number is read from digits, with one plus sign in front or none, and from nothing else; a
/// number that is too large is none.
pub proof fn numbers_are_read_from_digits(s: Seq<char>, max: nat)
    ensures
        s.len() > 0 && all_digits(s) && value(s) <= max ==> number(s, max) == Some(value(s))
            && number(seq!['+'] + s, max) == Some(value(s)),
        value(s) > max && all_digits(s) ==> number(s, max) is None && number(
            seq!['+'] + s,
            max,
        ) is None,
        s.len() == 0 || !all_digits(s) ==> number(seq!['+'] + s, max) is None,
        s.len() == 0 ==> number(s, max) is None,
        s.len() > 0 && s[0] != '+' && !all_digits(s) ==> number(s, max) is None,
{
    let signed = seq!['+'] + s;
    assert(signed.drop_first() =~= s);
    if s.len() > 0 && all_digits(s) {
        assert(is_digit(s[0]));
    }
}

} // verus!
