//! The cue model, the layout rules, and the SubRip and WebVTT writers.
//!
//! An engine returns transcript segments, not subtitles. The difference is layout:
//! splitting long segments, enforcing a floor and a ceiling on how long a cue stays on
//! screen, wrapping to at most two lines, and dropping the placeholders engines emit for
//! silence.
//!
//! Timings are never sent to a model. The times on a [`Cue`] are the ones the engine
//! measured, and translation leaves them alone.

use crate::order;
use crate::stt::TranscriptSegment;
use crate::text;
use vstd::prelude::*;
use vstd::slice::slice_subrange;
use vstd::slice::slice_to_vec;

verus! {

/// Maximum characters on one subtitle line before it wraps.
pub const MAX_LINE_CHARS: usize = 42;

/// Maximum lines in one cue. A third line covers the picture.
pub const MAX_LINES: usize = 2;

/// Longest a single cue may stay on screen. What a timed segment says is split to keep to it,
/// as far as there are places to break the text. The coarse cue of a window without timings
/// spans the window: nobody knows where in it the words were said.
pub const MAX_CUE_MS: u64 = 7000;

/// Shortest a cue may stay on screen: below this it reads as a flash.
pub const MIN_CUE_MS: u64 = 800;

/// Gap left between two cues that would otherwise abut, so the change is visible.
pub const CUE_GAP_MS: u64 = 40;

/// A kind of place at which text may be broken.
#[derive(Debug, Clone, Copy, PartialEq, Eq)]
pub enum Break {
    /// After a full stop, question mark or exclamation mark.
    Sentence,
    /// After a comma, semicolon or colon.
    Clause,
    /// After a space.
    Space,
}

impl Break {
    /// Whether `s` can be broken in this way after its first `k` characters.
    pub open spec fn at(self, s: Seq<char>, k: int) -> bool {
        match self {
            Break::Sentence => {
                ||| k >= 1 && (s[k - 1] == '。' || s[k - 1] == '？' || s[k - 1] == '！')
                ||| k >= 2 && s[k - 1] == ' ' && (s[k - 2] == '.' || s[k - 2] == '?' || s[k - 2]
                    == '!')
            },
            Break::Clause => {
                ||| k >= 1 && (s[k - 1] == '、' || s[k - 1] == '，')
                ||| k >= 2 && s[k - 1] == ' ' && (s[k - 2] == ',' || s[k - 2] == ';' || s[k - 2]
                    == ':')
            },
            Break::Space => k >= 1 && s[k - 1] == ' ',
        }
    }

    /// The last place among the first `k` at which `s` can be broken in this way, or 0.
    pub open spec fn last(self, s: Seq<char>, k: int) -> int
        decreases k,
    {
        if k <= 0 {
            0
        } else if self.at(s, k) {
            k
        } else {
            self.last(s, k - 1)
        }
    }

    fn is_at(self, cs: &[char], k: usize) -> (r: bool)
        requires
            1 <= k <= cs.len(),
        ensures
            r == self.at(cs@, k as int),
    {
        let c = cs[k - 1];
        match self {
            Break::Sentence => {
                c == '。' || c == '？' || c == '！' || (k >= 2 && c == ' ' && (cs[k - 2] == '.'
                    || cs[k - 2] == '?' || cs[k - 2] == '!'))
            },
            Break::Clause => {
                c == '、' || c == '，' || (k >= 2 && c == ' ' && (cs[k - 2] == ',' || cs[k - 2]
                    == ';' || cs[k - 2] == ':'))
            },
            Break::Space => c == ' ',
        }
    }

    fn find_last(self, cs: &[char], limit: usize) -> (r: usize)
        requires
            limit <= cs.len(),
        ensures
            r == self.last(cs@, limit as int),
            r <= limit,
    {
        let mut k: usize = limit;
        while k > 0
            invariant
                k <= limit <= cs.len(),
                self.last(cs@, limit as int) == self.last(cs@, k as int),
            decreases k,
        {
            if self.is_at(cs, k) {
                return k;
            }
            k -= 1;
        }
        0
    }
}

/// Where text that is longer than `budget` is cut: after the last sentence end within the
/// budget, else after the last clause break, else after the last space, else at the budget.
pub open spec fn best_cut(s: Seq<char>, budget: nat) -> int {
    let limit: int = if budget < s.len() {
        budget as int
    } else {
        s.len() as int
    };
    let sentence = Break::Sentence.last(s, limit);
    let clause = Break::Clause.last(s, limit);
    let space = Break::Space.last(s, limit);
    if sentence > 0 {
        sentence
    } else if clause > 0 {
        clause
    } else if space > 0 {
        space
    } else {
        limit
    }
}

proof fn lemma_last(kind: Break, s: Seq<char>, k: int)
    requires
        0 <= k,
    ensures
        0 <= kind.last(s, k) <= k,
    decreases k,
{
    if k > 0 && !kind.at(s, k) {
        lemma_last(kind, s, k - 1);
    }
}

/// The cut lies inside the text, and past its start whenever the budget is.
pub proof fn lemma_best_cut(s: Seq<char>, budget: nat)
    ensures
        0 <= best_cut(s, budget) <= s.len(),
        best_cut(s, budget) <= budget,
        0 < budget && 0 < s.len() ==> 0 < best_cut(s, budget),
{
    let limit: int = if budget < s.len() {
        budget as int
    } else {
        s.len() as int
    };
    lemma_last(Break::Sentence, s, limit);
    lemma_last(Break::Clause, s, limit);
    lemma_last(Break::Space, s, limit);
}

/// Where `cs` is cut to fit into `budget` characters, as a count of characters.
pub fn best_break(cs: &[char], budget: usize) -> (r: usize)
    ensures
        r == best_cut(cs@, budget as nat),
{
    let limit: usize = if budget < cs.len() {
        budget
    } else {
        cs.len()
    };
    let sentence: usize = Break::Sentence.find_last(cs, limit);
    if sentence > 0 {
        return sentence;
    }
    let clause: usize = Break::Clause.find_last(cs, limit);
    if clause > 0 {
        return clause;
    }
    let space: usize = Break::Space.find_last(cs, limit);
    if space > 0 {
        return space;
    }
    limit
}

/// `rest` in pieces of at most `budget` characters, each cut at the best place there is.
pub open spec fn chunks(rest: Seq<char>, budget: nat) -> Seq<Seq<char>>
    decreases rest.len(),
{
    if rest.len() > budget {
        let cut = best_cut(rest, budget);
        let head = text::trim(rest.take(cut));
        let tail = text::trim_start(rest.skip(cut));
        if head.len() == 0 {
            seq![rest]
        } else {
            proof {
                lemma_best_cut(rest, budget);
                text::lemma_trim(rest.take(cut));
                text::lemma_trim_start(rest.skip(cut));
            }
            seq![head] + chunks(tail, budget)
        }
    } else if rest.len() > 0 {
        seq![rest]
    } else {
        seq![]
    }
}

fn split_chars(cs: &[char], budget: usize) -> (r: Vec<Vec<char>>)
    ensures
        text::texts(r@) == chunks(text::trim(cs@), budget as nat),
{
    let mut out: Vec<Vec<char>> = Vec::new();
    let mut rest: &[char] = text::trim_of(cs);
    let ghost whole = chunks(text::trim(cs@), budget as nat);
    assert(text::texts(out@) + whole =~= whole);
    while rest.len() > budget
        invariant
            text::texts(out@) + chunks(rest@, budget as nat) == whole,
        ensures
            chunks(rest@, budget as nat) == if rest@.len() > 0 {
                seq![rest@]
            } else {
                seq![]
            },
        decreases rest.len(),
    {
        let cut: usize = best_break(rest, budget);
        proof {
            lemma_best_cut(rest@, budget as nat);
            text::lemma_trim(rest@.take(cut as int));
            text::lemma_trim_start(rest@.skip(cut as int));
            assert(rest@.take(cut as int) =~= rest@.subrange(0, cut as int));
            assert(rest@.skip(cut as int) =~= rest@.subrange(cut as int, rest@.len() as int));
        }
        let head = slice_to_vec(text::trim_of(slice_subrange(rest, 0, cut)));
        if head.len() == 0 {
            break;
        }
        let ghost before = text::texts(out@);
        out.push(head);
        rest = text::trim_start_of(slice_subrange(rest, cut, rest.len()));
        assert(text::texts(out@) =~= before.push(head@));
        assert(before.push(head@) + chunks(rest@, budget as nat) =~= before + (seq![head@]
            + chunks(rest@, budget as nat)));
    }
    if rest.len() > 0 {
        let ghost before = text::texts(out@);
        out.push(slice_to_vec(rest));
        assert(text::texts(out@) =~= before + seq![rest@]);
    } else {
        assert(text::texts(out@) + seq![] =~= text::texts(out@));
    }
    out
}

/// How many characters `parts` hold together.
pub open spec fn total_len(parts: Seq<Seq<char>>) -> nat
    decreases parts.len(),
{
    if parts.len() == 0 {
        0
    } else {
        total_len(parts.drop_last()) + parts.last().len()
    }
}

proof fn lemma_total_first(first: Seq<char>, rest: Seq<Seq<char>>)
    ensures
        total_len(seq![first] + rest) == first.len() + total_len(rest),
    decreases rest.len(),
{
    let all = seq![first] + rest;
    if rest.len() == 0 {
        assert(all.drop_last() =~= rest);
    } else {
        assert(all.drop_last() =~= seq![first] + rest.drop_last());
        lemma_total_first(first, rest.drop_last());
    }
}

/// Text with no whitespace at its ends is cut into pieces that are not empty, have no
/// whitespace at their own ends, fit the budget, and together hold all of its ink.
pub proof fn lemma_chunks(rest: Seq<char>, budget: nat)
    requires
        rest.len() > 0 ==> !text::white(rest[0]) && !text::white(rest.last()),
    ensures
        forall|i: int|
            #![trigger chunks(rest, budget)[i]]
            0 <= i < chunks(rest, budget).len() ==> {
                let part = chunks(rest, budget)[i];
                &&& 0 < part.len()
                &&& 0 < budget ==> part.len() <= budget
                &&& !text::white(part[0])
                &&& !text::white(part.last())
            },
        text::ink(text::join(chunks(rest, budget), seq![])) == text::ink(rest),
        total_len(chunks(rest, budget)) <= rest.len(),
        rest.len() > 0 ==> chunks(rest, budget).len() > 0,
    decreases rest.len(),
{
    reveal_with_fuel(total_len, 2);
    if rest.len() > budget {
        let cut = best_cut(rest, budget);
        let front = rest.take(cut);
        let back = rest.skip(cut);
        let head = text::trim(front);
        let tail = text::trim_start(back);
        lemma_best_cut(rest, budget);
        text::lemma_trim(front);
        text::lemma_trim_start(back);
        if head.len() > 0 {
            if tail.len() > 0 {
                assert(tail.last() == back.last());
                assert(back.last() == rest.last());
            }
            lemma_chunks(tail, budget);
            let more = chunks(tail, budget);
            let all = chunks(rest, budget);
            assert(all == seq![head] + more);
            assert forall|i: int| #![trigger all[i]] 0 <= i < all.len() implies {
                let part = all[i];
                &&& 0 < part.len()
                &&& 0 < budget ==> part.len() <= budget
                &&& !text::white(part[0])
                &&& !text::white(part.last())
            } by {
                if i > 0 {
                    assert(all[i] == more[i - 1]);
                }
            }
            text::lemma_join_first(head, more);
            text::lemma_ink_add(head, text::join(more, seq![]));
            text::lemma_ink_trim(front);
            text::lemma_ink_trim(back);
            text::lemma_ink_add(front, back);
            assert(front + back =~= rest);
            lemma_total_first(head, more);
        } else {
            assert(seq![rest].drop_last() =~= seq![]);
            if budget > 0 {
                assert(front[0] == rest[0]);
                assert(!text::blank(front));
            }
        }
    } else if rest.len() > 0 {
        assert(seq![rest].drop_last() =~= seq![]);
    }
}

/// Breaks `s` into chunks of at most `budget` characters, preferring a sentence end, then a
/// clause boundary, then a word gap.
pub fn split_text(s: &str, budget: usize) -> (r: Vec<String>)
    ensures
        text::strings(r@) == chunks(text::trim(s@), budget as nat),
{
    let cs = text::chars_of(s);
    let parts = split_chars(cs.as_slice(), budget);
    text::strings_of(parts.as_slice())
}

/// Splitting keeps every character that is not whitespace, in order, and each chunk is
/// trimmed, not empty, and within the budget.
pub proof fn split_text_keeps_every_word(s: Seq<char>, budget: nat)
    requires
        budget > 0,
    ensures
        text::ink(text::join(chunks(text::trim(s), budget), seq![])) == text::ink(s),
        forall|i: int|
            #![trigger chunks(text::trim(s), budget)[i]]
            0 <= i < chunks(text::trim(s), budget).len() ==> {
                let part = chunks(text::trim(s), budget)[i];
                &&& 0 < part.len() <= budget
                &&& text::trim(part) == part
            },
{
    text::lemma_trim(s);
    text::lemma_ink_trim(s);
    lemma_chunks(text::trim(s), budget);
    let parts = chunks(text::trim(s), budget);
    assert forall|i: int| #![trigger parts[i]] 0 <= i < parts.len() implies {
        &&& 0 < parts[i].len() <= budget
        &&& text::trim(parts[i]) == parts[i]
    } by {
        text::lemma_trim_fixed(parts[i]);
    }
}

/// The space at `k` splits `t` into two lines of at most [`MAX_LINE_CHARS`].
pub open spec fn folds_at(t: Seq<char>, k: int) -> bool {
    &&& 0 <= k < t.len()
    &&& t[k] == ' '
    &&& text::trim(t.take(k)).len() <= MAX_LINE_CHARS
    &&& text::trim(t.skip(k)).len() <= MAX_LINE_CHARS
}

/// The last space before `end` that splits `t` into two lines, or -1.
pub open spec fn last_fold(t: Seq<char>, end: int) -> int
    decreases end,
{
    if end <= 0 || folds_at(t, end - 1) {
        end - 1
    } else {
        last_fold(t, end - 1)
    }
}

/// One line holds `s`, or a space splits it into two that do.
pub open spec fn breakable(s: Seq<char>) -> bool {
    let t = text::trim(s);
    t.len() <= MAX_LINE_CHARS || exists|k: int| folds_at(t, k)
}

/// No line of `s` is longer than [`MAX_LINE_CHARS`].
pub open spec fn short_lines(s: Seq<char>) -> bool {
    forall|i: int| 0 <= i < text::lines(s).len() ==> (#[trigger] text::lines(s)[i]).len()
        <= MAX_LINE_CHARS
}

/// `s` on at most two lines: as it is where one line holds it, else cut into lines where it
/// reads best. Where that takes more than two, everything past the first line is joined onto
/// the second. Only where that makes the second too long, `s` is split at the last space that
/// leaves two lines instead, if there is one.
pub open spec fn wrapped(s: Seq<char>) -> Seq<char> {
    let t = text::trim(s);
    if t.len() <= MAX_LINE_CHARS {
        t
    } else {
        let lines = chunks(t, MAX_LINE_CHARS as nat);
        let tail = text::join(lines.skip(1), seq![' ']);
        let k = last_fold(t, t.len() as int);
        if lines.len() <= MAX_LINES {
            text::join(lines, seq!['\n'])
        } else if tail.len() > MAX_LINE_CHARS && k >= 0 {
            text::trim(t.take(k)) + seq!['\n'] + text::trim(t.skip(k))
        } else {
            lines[0] + seq!['\n'] + tail
        }
    }
}

proof fn lemma_last_fold(t: Seq<char>, end: int)
    requires
        0 <= end <= t.len(),
    ensures
        -1 <= last_fold(t, end) < end,
        last_fold(t, end) >= 0 ==> folds_at(t, last_fold(t, end)),
        forall|k: int| last_fold(t, end) < k < end ==> !#[trigger] folds_at(t, k),
    decreases end,
{
    if end > 0 && !folds_at(t, end - 1) {
        lemma_last_fold(t, end - 1);
    }
}

/// The last space that splits `cs` into two lines.
fn last_fold_of(cs: &[char]) -> (r: Option<usize>)
    ensures
        match r {
            Some(k) => k == last_fold(cs@, cs@.len() as int) && k < cs@.len(),
            None => last_fold(cs@, cs@.len() as int) < 0,
        },
{
    let mut end: usize = cs.len();
    while end > 0
        invariant
            end <= cs@.len(),
            last_fold(cs@, cs@.len() as int) == last_fold(cs@, end as int),
        decreases end,
    {
        let k: usize = end - 1;
        if cs[k] == ' ' {
            let first = text::trim_of(slice_subrange(cs, 0, k));
            let second = text::trim_of(slice_subrange(cs, k, cs.len()));
            assert(cs@.subrange(0, k as int) =~= cs@.take(k as int));
            assert(cs@.subrange(k as int, cs@.len() as int) =~= cs@.skip(k as int));
            if first.len() <= MAX_LINE_CHARS && second.len() <= MAX_LINE_CHARS {
                return Some(k);
            }
        }
        end = k;
    }
    None
}

/// Wraps one cue's text to at most [`MAX_LINES`] lines of [`MAX_LINE_CHARS`]. Where no space
/// splits it so, the last line overflows rather than dropping words.
pub fn wrap(cs: &[char]) -> (r: Vec<char>)
    ensures
        r@ == wrapped(cs@),
        text::occurrences(cs@, '\n') == 0 && breakable(cs@) ==> short_lines(r@),
{
    let t = text::trim_of(cs);
    proof {
        wrapping_keeps_every_word_on_two_lines(cs@);
    }
    if t.len() <= MAX_LINE_CHARS {
        return slice_to_vec(t);
    }
    let lines = split_chars(t, MAX_LINE_CHARS);
    proof {
        text::lemma_trim_idempotent(cs@);
    }
    let ghost spec_lines = text::texts(lines@);
    if lines.len() <= MAX_LINES {
        return text::join_of(lines.as_slice(), '\n');
    }
    let mut out: Vec<char> = Vec::new();
    let tail = text::join_of(slice_subrange(lines.as_slice(), 1, lines.len()), ' ');
    assert(text::texts(lines@.subrange(1, lines@.len() as int)) =~= spec_lines.skip(1));
    let fold = if tail.len() > MAX_LINE_CHARS {
        last_fold_of(t)
    } else {
        None
    };
    if let Some(k) = fold {
        let first = slice_subrange(t, 0, k);
        let second = slice_subrange(t, k, t.len());
        assert(first@ =~= t@.take(k as int));
        assert(second@ =~= t@.skip(k as int));
        text::append(&mut out, text::trim_of(first));
        out.push('\n');
        text::append(&mut out, text::trim_of(second));
        assert(out@ =~= text::trim(first@) + seq!['\n'] + text::trim(second@));
        return out;
    }
    text::append(&mut out, lines[0].as_slice());
    out.push('\n');
    text::append(&mut out, tail.as_slice());
    assert(out@ =~= spec_lines[0] + seq!['\n'] + text::join(spec_lines.skip(1), seq![' ']));
    out
}

proof fn lemma_chunks_occurrences(rest: Seq<char>, budget: nat, c: char)
    ensures
        text::occurrences(text::join(chunks(rest, budget), seq![]), c) <= text::occurrences(rest, c),
    decreases rest.len(),
{
    if rest.len() > budget {
        let cut = best_cut(rest, budget);
        let front = rest.take(cut);
        let back = rest.skip(cut);
        let head = text::trim(front);
        let tail = text::trim_start(back);
        lemma_best_cut(rest, budget);
        if head.len() > 0 {
            text::lemma_trim(front);
            text::lemma_trim_start(back);
            lemma_chunks_occurrences(tail, budget, c);
            text::lemma_join_first(head, chunks(tail, budget));
            text::lemma_occurrences_add(head, text::join(chunks(tail, budget), seq![]), c);
            text::lemma_occurrences_trim(front, c);
            text::lemma_occurrences_trim(back, c);
            text::lemma_occurrences_add(front, back, c);
            assert(front + back =~= rest);
        }
    }
}

proof fn lemma_two_lines(first: Seq<char>, second: Seq<char>)
    requires
        text::occurrences(first, '\n') == 0,
        text::occurrences(second, '\n') == 0,
        first.len() <= MAX_LINE_CHARS,
        second.len() <= MAX_LINE_CHARS,
    ensures
        short_lines(first + seq!['\n'] + second),
{
    let parts = seq![first, second];
    assert(parts.drop_last() =~= seq![first]);
    assert(seq![first].drop_last() =~= seq![]);
    assert(text::join(seq![first], seq!['\n']) =~= first);
    assert(text::join(parts, seq!['\n']) =~= first + seq!['\n'] + second);
    text::lemma_lines_join(parts);
}

proof fn lemma_wrapped_fold(t: Seq<char>, k: int)
    requires
        folds_at(t, k),
    ensures
        ({
            let w = text::trim(t.take(k)) + seq!['\n'] + text::trim(t.skip(k));
            &&& text::ink(w) == text::ink(t)
            &&& text::occurrences(t, '\n') == 0 ==> text::occurrences(w, '\n') == 1 && short_lines(
                w,
            )
        }),
{
    let front = t.take(k);
    let back = t.skip(k);
    let first = text::trim(front);
    let second = text::trim(back);
    let w = first + seq!['\n'] + second;
    let none = Seq::<char>::empty();
    reveal_with_fuel(text::occurrences, 2);
    assert(front + back =~= t);
    text::lemma_ink_trim(front);
    text::lemma_ink_trim(back);
    text::lemma_ink_add(front, back);
    text::lemma_ink_add(first, seq!['\n']);
    text::lemma_ink_blank(seq!['\n']);
    assert(text::ink(first) + none =~= text::ink(first));
    text::lemma_ink_add(first + seq!['\n'], second);
    text::lemma_occurrences_add(front, back, '\n');
    text::lemma_occurrences_trim(front, '\n');
    text::lemma_occurrences_trim(back, '\n');
    text::lemma_occurrences_add(first, seq!['\n'], '\n');
    text::lemma_occurrences_add(first + seq!['\n'], second, '\n');
    if text::occurrences(t, '\n') == 0 {
        lemma_two_lines(first, second);
    }
}

/// Wrapping loses no word. Text without line breaks gets at most one: never more than two
/// lines, and none longer than it should be where a space splits the text into two that are
/// not.
pub proof fn wrapping_keeps_every_word_on_two_lines(s: Seq<char>)
    ensures
        text::ink(wrapped(s)) == text::ink(s),
        text::occurrences(s, '\n') == 0 ==> text::occurrences(wrapped(s), '\n') < MAX_LINES,
        text::occurrences(s, '\n') == 0 && breakable(s) ==> short_lines(wrapped(s)),
{
    let t = text::trim(s);
    text::lemma_trim(s);
    text::lemma_ink_trim(s);
    text::lemma_occurrences_trim(s, '\n');
    if t.len() <= MAX_LINE_CHARS {
        if text::occurrences(s, '\n') == 0 {
            assert(seq![t].drop_last() =~= seq![]);
            assert(text::join(seq![t], seq!['\n']) =~= t);
            text::lemma_lines_join(seq![t]);
        }
    } else {
        let budget = MAX_LINE_CHARS as nat;
        let lines = chunks(t, budget);
        let none = Seq::<char>::empty();
        lemma_chunks(t, budget);
        lemma_chunks_occurrences(t, budget, '\n');
        reveal_with_fuel(text::occurrences, 2);
        let k = last_fold(t, t.len() as int);
        lemma_last_fold(t, t.len() as int);
        if lines.len() <= MAX_LINES {
            text::lemma_ink_join(lines, seq!['\n']);
            text::lemma_occurrences_join(lines, seq!['\n'], '\n');
            let n = lines.len() as int;
            let m = text::occurrences(seq!['\n'], '\n') as int;
            assert(m == 1);
            assert((n - 1) * m <= 1) by (nonlinear_arith)
                requires
                    m == 1,
                    n <= 2,
            ;
            if text::occurrences(s, '\n') == 0 {
                assert forall|i: int| 0 <= i < lines.len() implies text::occurrences(
                    #[trigger] lines[i],
                    '\n',
                ) == 0 by {
                    text::lemma_occurrences_parts(lines, '\n', i);
                }
                text::lemma_lines_join(lines);
            }
        } else if text::join(lines.skip(1), seq![' ']).len() > MAX_LINE_CHARS && k >= 0 {
            lemma_wrapped_fold(t, k);
        } else {
            let tail = lines.skip(1);
            assert(seq![lines[0]] + tail =~= lines);
            text::lemma_join_first(lines[0], tail);
            text::lemma_ink_join(tail, seq![' ']);
            text::lemma_occurrences_join(tail, seq![' '], '\n');
            text::lemma_ink_add(lines[0], text::join(tail, none));
            text::lemma_occurrences_add(lines[0], text::join(tail, none), '\n');
            let first = lines[0] + seq!['\n'];
            text::lemma_ink_add(first, text::join(tail, seq![' ']));
            text::lemma_ink_add(lines[0], seq!['\n']);
            text::lemma_ink_blank(seq!['\n']);
            assert(text::ink(lines[0]) + none =~= text::ink(lines[0]));
            text::lemma_occurrences_add(first, text::join(tail, seq![' ']), '\n');
            text::lemma_occurrences_add(lines[0], seq!['\n'], '\n');
            assert((tail.len() - 1) * text::occurrences(seq![' '], '\n') == 0) by {
                assert(text::occurrences(seq![' '], '\n') == 0);
            }
            let second = text::join(tail, seq![' ']);
            if text::occurrences(s, '\n') == 0 && second.len() <= MAX_LINE_CHARS {
                lemma_two_lines(lines[0], second);
            }
        }
    }
}

/// The placeholders engines emit where nobody speaks, in lower case.
pub open spec fn noise(s: Seq<char>) -> bool {
    ||| s == "[blank_audio]"@
    ||| s == "[silence]"@
    ||| s == "(silence)"@
    ||| s == "[music]"@
    ||| s == "(music)"@
    ||| s == "[applause]"@
    ||| s == "[inaudible]"@
    ||| s == "[ silence ]"@
    ||| s == "*"@
    ||| s == "."@
    ||| s == ".."@
    ||| s == "..."@
    ||| s == "…"@
    ||| s == "-"@
}

/// What is left of engine output once placeholders are gone and whitespace is squeezed.
pub open spec fn cleaned(s: Seq<char>) -> Seq<char> {
    if noise(text::ascii_lower(text::trim(s))) {
        seq![]
    } else {
        text::squeeze(s)
    }
}

/// Strips the placeholders engines emit for non-speech, and squeezes whitespace.
pub fn clean(s: &str) -> (r: String)
    ensures
        r@ == cleaned(s@),
{
    let cs = text::chars_of(s);
    let low = text::ascii_lower_of(text::trim_of(cs.as_slice()));
    let l = low.as_slice();
    if text::spells(l, "[blank_audio]") || text::spells(l, "[silence]") || text::spells(
        l,
        "(silence)",
    ) || text::spells(l, "[music]") || text::spells(l, "(music)") || text::spells(l, "[applause]")
        || text::spells(l, "[inaudible]") || text::spells(l, "[ silence ]") || text::spells(l, "*")
        || text::spells(l, ".") || text::spells(l, "..") || text::spells(l, "...") || text::spells(
        l,
        "…",
    ) || text::spells(l, "-") {
        return String::new();
    }
    text::string_of(text::squeeze_of(cs.as_slice()).as_slice())
}

/// Cleaned text is tidy, and apart from placeholders it keeps every word.
pub proof fn cleaning_keeps_every_word(s: Seq<char>)
    ensures
        text::tidy(cleaned(s)),
        !noise(text::ascii_lower(text::trim(s))) ==> text::ink(cleaned(s)) == text::ink(s),
        cleaned(s).len() == 0 <==> text::blank(s) || noise(text::ascii_lower(text::trim(s))),
{
    text::lemma_squeeze(s);
}

/// A punctuation mark: ASCII punctuation, and that of the scripts that subtitles are most
/// often written in.
pub open spec fn punctuation(c: char) -> bool {
    let u = c as u32;
    ||| 0x21 <= u <= 0x2F
    ||| 0x3A <= u <= 0x40
    ||| 0x5B <= u <= 0x60
    ||| 0x7B <= u <= 0x7E
    ||| u == 0xA1 || u == 0xA7 || u == 0xAB || u == 0xB6 || u == 0xB7 || u == 0xBB || u == 0xBF
    ||| u == 0x60C || u == 0x61B || u == 0x61F || u == 0x6D4 || u == 0x964 || u == 0x965
    ||| 0x2010 <= u <= 0x2027
    ||| 0x2030 <= u <= 0x205E
    ||| 0x3001 <= u <= 0x3003
    ||| 0x3008 <= u <= 0x3011
    ||| 0x3014 <= u <= 0x301F
    ||| u == 0x3030 || u == 0x30FB
    ||| 0xFE30 <= u <= 0xFE4F
    ||| 0xFF01 <= u <= 0xFF0F
    ||| 0xFF1A <= u <= 0xFF20
    ||| 0xFF3B <= u <= 0xFF40
    ||| 0xFF5B <= u <= 0xFF65
}

fn is_punctuation(c: char) -> (r: bool)
    ensures
        r == punctuation(c),
{
    let u: u32 = c as u32;
    let ascii = (0x21 <= u && u <= 0x2F) || (0x3A <= u && u <= 0x40) || (0x5B <= u && u <= 0x60)
        || (0x7B <= u && u <= 0x7E);
    let latin = u == 0xA1 || u == 0xA7 || u == 0xAB || u == 0xB6 || u == 0xB7 || u == 0xBB || u
        == 0xBF;
    let other = u == 0x60C || u == 0x61B || u == 0x61F || u == 0x6D4 || u == 0x964 || u == 0x965;
    let general = (0x2010 <= u && u <= 0x2027) || (0x2030 <= u && u <= 0x205E);
    let east = (0x3001 <= u && u <= 0x3003) || (0x3008 <= u && u <= 0x3011) || (0x3014 <= u && u
        <= 0x301F) || u == 0x3030 || u == 0x30FB || (0xFE30 <= u && u <= 0xFE4F);
    let wide = (0xFF01 <= u && u <= 0xFF0F) || (0xFF1A <= u && u <= 0xFF20) || (0xFF3B <= u && u
        <= 0xFF40) || (0xFF5B <= u && u <= 0xFF65);
    ascii || latin || other || general || east || wide
}

/// `s` holds punctuation and spaces, and nothing else.
pub open spec fn only_punctuation(s: Seq<char>) -> bool {
    forall|i: int| 0 <= i < s.len() ==> punctuation(#[trigger] s[i]) || s[i] == ' '
}

fn is_only_punctuation(cs: &[char]) -> (r: bool)
    ensures
        r == only_punctuation(cs@),
{
    let mut i: usize = 0;
    while i < cs.len()
        invariant
            i <= cs@.len(),
            forall|k: int| 0 <= k < i ==> punctuation(#[trigger] cs@[k]) || cs@[k] == ' ',
        decreases cs@.len() - i,
    {
        if !is_punctuation(cs[i]) && cs[i] != ' ' {
            return false;
        }
        i += 1;
    }
    true
}

/// What is said in engine output: the cleaned text, or nothing where that is bare
/// punctuation.
pub open spec fn speech(s: Seq<char>) -> Seq<char> {
    if only_punctuation(cleaned(s)) {
        seq![]
    } else {
        cleaned(s)
    }
}

/// What is said in engine output.
pub fn speech_of(s: &str) -> (r: String)
    ensures
        r@ == speech(s@),
{
    let text = clean(s);
    if is_only_punctuation(text::chars_of(&text).as_slice()) {
        return String::new();
    }
    text
}

/// Speech is tidy, and keeps every word of what is neither a placeholder nor bare
/// punctuation.
pub proof fn speech_keeps_every_word(s: Seq<char>)
    ensures
        text::tidy(speech(s)),
        speech(s).len() > 0 <==> !noise(text::ascii_lower(text::trim(s))) && !only_punctuation(
            text::squeeze(s),
        ),
        speech(s).len() > 0 ==> text::ink(speech(s)) == text::ink(s),
{
    cleaning_keeps_every_word(s);
}

/// One subtitle: when it appears, when it leaves, what it says.
///
/// `text` is always the line the engine produced in the source language. `translated` is
/// `Some` only after a translation pass, which is what lets a bilingual file be rendered
/// without a second transcription.
#[derive(Debug, Clone, PartialEq, Eq)]
pub struct Cue {
    pub start_ms: u64,
    pub end_ms: u64,
    pub text: String,
    pub translated: Option<String>,
}

/// A cue as a mathematical value.
#[verifier::ext_equal]
pub struct CueView {
    pub start_ms: int,
    pub end_ms: int,
    pub text: Seq<char>,
    pub translated: Option<Seq<char>>,
}

impl View for Cue {
    type V = CueView;

    open spec fn view(&self) -> CueView {
        CueView {
            start_ms: self.start_ms as int,
            end_ms: self.end_ms as int,
            text: self.text@,
            translated: match self.translated {
                Some(t) => Some(t@),
                None => None,
            },
        }
    }
}

/// The cues of a list as mathematical values.
pub open spec fn views(cues: Seq<Cue>) -> Seq<CueView> {
    cues.map_values(|c: Cue| c@)
}

impl Cue {
    /// A second cue with the same times and texts.
    pub fn duplicate(&self) -> (r: Cue)
        ensures
            r@ == self@,
    {
        Cue {
            start_ms: self.start_ms,
            end_ms: self.end_ms,
            text: self.text.clone(),
            translated: match &self.translated {
                Some(t) => Some(t.clone()),
                None => None,
            },
        }
    }
}

/// How long a cue stays on screen; an inverted one does not.
pub open spec fn span(c: CueView) -> int {
    if c.end_ms > c.start_ms {
        c.end_ms - c.start_ms
    } else {
        0
    }
}

/// The time that the first `i` of `parts` take of `span`, each in proportion to its length
/// and rounded down.
pub open spec fn shares(span: int, parts: Seq<Seq<char>>, i: int) -> int
    decreases i,
{
    if i <= 0 {
        0
    } else {
        shares(span, parts, i - 1) + span * parts[i - 1].len() / total_len(parts) as int
    }
}

/// When part `i` of a split cue appears.
pub open spec fn part_start(c: CueView, parts: Seq<Seq<char>>, i: int) -> int {
    let t = c.start_ms + shares(span(c), parts, i);
    if i <= 0 {
        c.start_ms
    } else if t < c.end_ms {
        t
    } else {
        c.end_ms
    }
}

/// Part `i` of a split cue. It leaves when the next part appears, the last one when the
/// whole cue does, and none leaves before it was seen.
pub open spec fn part_cue(c: CueView, parts: Seq<Seq<char>>, i: int) -> CueView {
    let start = part_start(c, parts, i);
    let end = if i + 1 == parts.len() {
        c.end_ms
    } else {
        part_start(c, parts, i + 1)
    };
    CueView {
        start_ms: start,
        end_ms: if end > start {
            end
        } else {
            start + 1
        },
        text: parts[i],
        translated: None,
    }
}

/// The pieces into which the text of a cue is cut when two lines cannot hold it.
pub open spec fn cue_parts(c: CueView) -> Seq<Seq<char>> {
    chunks(text::trim(c.text), (MAX_LINE_CHARS * MAX_LINES) as nat)
}

/// `c` as consecutive cues of at most two lines' worth of text, sharing its span in
/// proportion to their lengths; `c` itself where its text need not be cut.
pub open spec fn split_cue(c: CueView) -> Seq<CueView> {
    let parts = cue_parts(c);
    if parts.len() <= 1 {
        seq![c]
    } else {
        Seq::new(parts.len(), |i: int| part_cue(c, parts, i))
    }
}

proof fn lemma_total_take(parts: Seq<Seq<char>>, i: int)
    requires
        0 <= i <= parts.len(),
        forall|j: int| 0 <= j < parts.len() ==> (#[trigger] parts[j]).len() > 0,
    ensures
        total_len(parts.take(i)) <= total_len(parts),
        i < parts.len() ==> total_len(parts.take(i)) < total_len(parts),
        i < parts.len() ==> total_len(parts.take(i + 1)) == total_len(parts.take(i)) + parts[i].len(),
        i < parts.len() ==> parts[i].len() <= total_len(parts),
    decreases parts.len() - i,
{
    if i < parts.len() {
        lemma_total_take(parts, i + 1);
        assert(parts.take(i + 1).drop_last() =~= parts.take(i));
    } else {
        assert(parts.take(i) =~= parts);
    }
}

proof fn lemma_shares(span: int, parts: Seq<Seq<char>>, i: int)
    requires
        0 <= span,
        0 <= i <= parts.len(),
        forall|j: int| 0 <= j < parts.len() ==> (#[trigger] parts[j]).len() > 0,
    ensures
        0 <= shares(span, parts, i) <= span,
        i > 0 ==> shares(span, parts, i - 1) <= shares(span, parts, i),
        0 < span && i < parts.len() ==> shares(span, parts, i) < span,
        parts.len() > 0 ==> shares(span, parts, i) * total_len(parts) <= span * total_len(
            parts.take(i),
        ),
    decreases i,
{
    let total = total_len(parts) as int;
    if i > 0 {
        lemma_shares(span, parts, i - 1);
        lemma_total_take(parts, i - 1);
        let before = shares(span, parts, i - 1);
        let len = parts[i - 1].len() as int;
        let head = total_len(parts.take(i - 1)) as int;
        let share = span * len / total;
        assert(0 <= share && share * total <= span * len) by (nonlinear_arith)
            requires
                share == span * len / total,
                0 <= span,
                0 <= len,
                0 < total,
        ;
        assert((before + share) * total <= span * (head + len)) by (nonlinear_arith)
            requires
                before * total <= span * head,
                share * total <= span * len,
        ;
    }
    lemma_total_take(parts, i);
    if parts.len() > 0 {
        let got = shares(span, parts, i);
        let head = total_len(parts.take(i)) as int;
        if i == 0 {
            assert(0 * total <= span * head) by (nonlinear_arith)
                requires
                    0 <= span,
                    0 <= head,
            ;
        }
        assert(got <= span) by (nonlinear_arith)
            requires
                got * total <= span * head,
                head <= total,
                0 < total,
                0 <= span,
        ;
        if 0 < span && i < parts.len() {
            assert(span * head < span * total) by (nonlinear_arith)
                requires
                    head < total,
                    0 < span,
            ;
            assert(got < span) by (nonlinear_arith)
                requires
                    got * total < span * total,
                    0 < total,
            ;
        }
    }
}

/// Splits a cue whose text is too long for [`MAX_LINES`] lines into consecutive cues that
/// share its span in proportion to their text.
pub fn split_long(cue: &Cue) -> (r: Vec<Cue>)
    requires
        cue.start_ms < cue.end_ms || (cue.start_ms < u64::MAX && cue.end_ms < u64::MAX),
    ensures
        views(r@) == split_cue(cue@),
{
    let budget: usize = MAX_LINE_CHARS * MAX_LINES;
    let cs = text::chars_of(&cue.text);
    let parts = split_chars(cs.as_slice(), budget);
    let ghost spec_parts = text::texts(parts@);
    let mut out: Vec<Cue> = Vec::new();
    if parts.len() <= 1 {
        out.push(cue.duplicate());
        assert(views(out@) =~= seq![cue@]);
        return out;
    }
    proof {
        text::lemma_trim(cs@);
        lemma_chunks(text::trim(cs@), budget as nat);
        assert(spec_parts.take(spec_parts.len() as int) =~= spec_parts);
    }
    let duration: u64 = if cue.end_ms > cue.start_ms {
        cue.end_ms - cue.start_ms
    } else {
        0
    };
    let mut total: usize = 0;
    let mut k: usize = 0;
    while k < parts.len()
        invariant
            k <= parts.len(),
            spec_parts == text::texts(parts@),
            forall|j: int| 0 <= j < spec_parts.len() ==> (#[trigger] spec_parts[j]).len() > 0,
            total_len(spec_parts) <= cs@.len(),
            total == total_len(spec_parts.take(k as int)),
        decreases parts.len() - k,
    {
        proof {
            lemma_total_take(spec_parts, k as int);
            if k + 1 < parts.len() {
                lemma_total_take(spec_parts, k + 1);
            } else {
                assert(spec_parts.take(k + 1) =~= spec_parts);
            }
            assert(spec_parts[k as int] == parts@[k as int]@);
        }
        assert(cs.len() == cs@.len());
        total = total + parts[k].len();
        k += 1;
    }
    assert(spec_parts.take(k as int) =~= spec_parts);
    proof {
        lemma_total_take(spec_parts, 0);
    }

    let mut cursor: u64 = cue.start_ms;
    let mut i: usize = 0;
    while i < parts.len()
        invariant
            i <= parts.len(),
            parts.len() > 1,
            cue.start_ms < cue.end_ms || (cue.start_ms < u64::MAX && cue.end_ms < u64::MAX),
            spec_parts == text::texts(parts@),
            spec_parts == cue_parts(cue@),
            forall|j: int| 0 <= j < spec_parts.len() ==> (#[trigger] spec_parts[j]).len() > 0,
            duration == span(cue@),
            total == total_len(spec_parts),
            total > 0,
            cursor == part_start(cue@, spec_parts, i as int) || i == parts.len(),
            views(out@) == Seq::new(i as nat, |j: int| part_cue(cue@, spec_parts, j)),
        decreases parts.len() - i,
    {
        let len: usize = parts[i].len();
        proof {
            assert(spec_parts[i as int] == parts@[i as int]@);
            lemma_shares(span(cue@), spec_parts, i as int);
            lemma_shares(span(cue@), spec_parts, i + 1);
            lemma_total_take(spec_parts, i as int);
            assert(duration as int * len as int <= 0xffff_ffff_ffff_ffff * 0xffff_ffff_ffff_ffff)
                by (nonlinear_arith)
                requires
                    duration <= 0xffff_ffff_ffff_ffff,
                    len <= 0xffff_ffff_ffff_ffff,
            ;
        }
        let wide: u128 = (duration as u128) * (len as u128) / (total as u128);
        assert(wide == span(cue@) * spec_parts[i as int].len() / total_len(spec_parts) as int);
        assert(wide <= duration);
        let share: u64 = wide as u64;
        let end: u64 = if i + 1 == parts.len() {
            cue.end_ms
        } else {
            let next: u64 = cursor + share;
            if next < cue.end_ms {
                next
            } else {
                cue.end_ms
            }
        };
        let leave: u64 = if end > cursor {
            end
        } else {
            cursor + 1
        };
        let ghost before = views(out@);
        out.push(
            Cue {
                start_ms: cursor,
                end_ms: leave,
                text: text::string_of(parts[i].as_slice()),
                translated: None,
            },
        );
        assert(views(out@) =~= before.push(part_cue(cue@, spec_parts, i as int)));
        cursor = end;
        i += 1;
        assert(views(out@) =~= Seq::new(i as nat, |j: int| part_cue(cue@, spec_parts, j)));
    }
    out
}

/// A cue that is split keeps its span: the first part appears when the cue did, the last
/// leaves when the cue did, and each part appears no earlier than the one before it. A part
/// whose share of the span is at least a millisecond leaves when the next one appears.
pub proof fn splitting_shares_the_span(c: CueView)
    requires
        c.start_ms < c.end_ms,
    ensures
        split_cue(c).len() > 0,
        split_cue(c)[0].start_ms == c.start_ms,
        split_cue(c).last().end_ms == c.end_ms,
        forall|i: int|
            #![trigger split_cue(c)[i]]
            0 <= i < split_cue(c).len() ==> c.start_ms <= split_cue(c)[i].start_ms
                < split_cue(c)[i].end_ms <= c.end_ms,
        forall|i: int|
            #![trigger split_cue(c)[i]]
            0 <= i < split_cue(c).len() - 1 ==> {
                &&& split_cue(c)[i].start_ms <= split_cue(c)[i + 1].start_ms
                &&& span(c) * cue_parts(c)[i].len() >= total_len(cue_parts(c)) ==> split_cue(
                    c,
                )[i].end_ms == split_cue(c)[i + 1].start_ms
            },
{
    let parts = cue_parts(c);
    text::lemma_trim(c.text);
    lemma_chunks(text::trim(c.text), (MAX_LINE_CHARS * MAX_LINES) as nat);
    if parts.len() > 1 {
        let n = parts.len() as int;
        assert forall|i: int| 0 <= i < n implies 0 <= #[trigger] shares(span(c), parts, i) < span(
            c,
        ) by {
            lemma_shares(span(c), parts, i);
        }
        assert forall|i: int| #![trigger split_cue(c)[i]] 0 <= i < n - 1 implies {
            &&& split_cue(c)[i].start_ms <= split_cue(c)[i + 1].start_ms
            &&& span(c) * parts[i].len() >= total_len(parts) ==> split_cue(c)[i].end_ms
                == split_cue(c)[i + 1].start_ms
        } by {
            lemma_shares(span(c), parts, i);
            lemma_shares(span(c), parts, i + 1);
            lemma_total_take(parts, i);
            let len = parts[i].len() as int;
            let total = total_len(parts) as int;
            let d = span(c);
            if d * len >= total {
                assert(d * len / total >= 1) by (nonlinear_arith)
                    requires
                        d * len >= total,
                        total > 0,
                ;
            }
        }
        assert forall|i: int| #![trigger split_cue(c)[i]] 0 <= i < n implies c.start_ms
            <= split_cue(c)[i].start_ms < split_cue(c)[i].end_ms <= c.end_ms by {
            lemma_shares(span(c), parts, i);
            if i + 1 < n {
                lemma_shares(span(c), parts, i + 1);
            }
        }
    }
}

/// `t` can be broken after its first `k` characters, with text on both sides.
pub open spec fn parts_at(t: Seq<char>, k: int) -> bool {
    &&& 0 < k < t.len()
    &&& Break::Sentence.at(t, k) || Break::Clause.at(t, k) || Break::Space.at(t, k)
}

/// There is a place at which `t` can be broken.
pub open spec fn has_break(t: Seq<char>) -> bool {
    exists|k: int| parts_at(t, k)
}

/// When the second half of `c` appears, cut after `k` characters: the halves share its span
/// in proportion to their text.
pub open spec fn turn_ms(c: CueView, k: int) -> int {
    let head = text::trim(c.text.take(k)).len() as int;
    let tail = text::trim(c.text.skip(k)).len() as int;
    c.start_ms + span(c) * head / (head + tail)
}

/// The first half of `c`, cut after `k` characters.
pub open spec fn first_half(c: CueView, k: int) -> CueView {
    CueView {
        start_ms: c.start_ms,
        end_ms: turn_ms(c, k),
        text: text::trim(c.text.take(k)),
        translated: None,
    }
}

/// The second half of `c`, cut after `k` characters.
pub open spec fn second_half(c: CueView, k: int) -> CueView {
    CueView {
        start_ms: turn_ms(c, k),
        end_ms: c.end_ms,
        text: text::trim(c.text.skip(k)),
        translated: None,
    }
}

/// The places at which `c` may be cut in two: breaks of a kind that leave each half its
/// minimum time on screen, or any breaks at all.
pub open spec fn turns(c: CueView, kind: Option<Break>) -> spec_fn(int) -> bool {
    |k: int|
        match kind {
            Some(b) => {
                &&& 0 < k < c.text.len()
                &&& b.at(c.text, k)
                &&& turn_ms(c, k) - c.start_ms >= MIN_CUE_MS
                &&& c.end_ms - turn_ms(c, k) >= MIN_CUE_MS
            },
            None => parts_at(c.text, k),
        }
}

/// The place inside `n` characters that is nearest to their middle, `d` or more away from it,
/// among those that meet `p`; 0 where none does.
pub open spec fn nearest(n: int, d: int, p: spec_fn(int) -> bool) -> int
    decreases n - d,
{
    let mid = n / 2;
    if d >= n {
        0
    } else if 0 < mid - d && p(mid - d) {
        mid - d
    } else if mid + d < n && p(mid + d) {
        mid + d
    } else {
        nearest(n, d + 1, p)
    }
}

/// Where `c` is cut when it stays too long: near the middle of its text, at a sentence end if
/// one leaves both halves time to be read, else at a clause boundary, else at a word gap, else
/// at any break; 0 where there is none.
pub open spec fn turn(c: CueView) -> int {
    let n = c.text.len() as int;
    let sentence = nearest(n, 0, turns(c, Some(Break::Sentence)));
    let clause = nearest(n, 0, turns(c, Some(Break::Clause)));
    let space = nearest(n, 0, turns(c, Some(Break::Space)));
    if sentence > 0 {
        sentence
    } else if clause > 0 {
        clause
    } else if space > 0 {
        space
    } else {
        nearest(n, 0, turns(c, None))
    }
}

/// `c` as consecutive cues, none of which stays longer than [`MAX_CUE_MS`] unless its text has
/// no break.
pub open spec fn paced(c: CueView) -> Seq<CueView>
    decreases c.text.len(),
{
    let k = turn(c);
    if span(c) <= MAX_CUE_MS || !(0 < k < c.text.len()) {
        seq![c]
    } else {
        proof {
            text::lemma_trim(c.text.take(k));
            text::lemma_trim(c.text.skip(k));
        }
        paced(first_half(c, k)) + paced(second_half(c, k))
    }
}

/// Each of `cues` as consecutive cues that do not stay too long.
pub open spec fn all_paced(cues: Seq<CueView>) -> Seq<CueView>
    decreases cues.len(),
{
    if cues.len() == 0 {
        seq![]
    } else {
        all_paced(cues.drop_last()) + paced(cues.last())
    }
}

proof fn lemma_nearest(n: int, d: int, p: spec_fn(int) -> bool)
    requires
        0 <= n,
        0 <= d,
        forall|k: int| #[trigger] p(k) ==> 0 < k < n,
        forall|k: int| #[trigger] p(k) ==> k <= n / 2 - d || n / 2 + d <= k,
    ensures
        0 <= nearest(n, d, p),
        nearest(n, d, p) > 0 ==> p(nearest(n, d, p)),
        nearest(n, d, p) == 0 ==> forall|k: int| !#[trigger] p(k),
    decreases n - d,
{
    let mid = n / 2;
    if d < n && !(0 < mid - d && p(mid - d)) && !(mid + d < n && p(mid + d)) {
        assert forall|k: int| #[trigger] p(k) implies k <= mid - (d + 1) || mid + (d + 1) <= k by {
            if k == mid - d || k == mid + d {
                assert(0 < k < n);
            }
        }
        lemma_nearest(n, d + 1, p);
    }
}

proof fn lemma_turn(c: CueView)
    ensures
        0 <= turn(c),
        turn(c) > 0 ==> parts_at(c.text, turn(c)),
        turn(c) == 0 ==> !has_break(c.text),
{
    let n = c.text.len() as int;
    lemma_nearest(n, 0, turns(c, Some(Break::Sentence)));
    lemma_nearest(n, 0, turns(c, Some(Break::Clause)));
    lemma_nearest(n, 0, turns(c, Some(Break::Space)));
    let any = turns(c, None);
    lemma_nearest(n, 0, any);
    if turn(c) == 0 && has_break(c.text) {
        let k = choose|k: int| parts_at(c.text, k);
        assert(any(k));
    }
}

/// Whether `c` may be cut after `k` characters.
fn is_turn(c: &Cue, cs: &[char], kind: Option<Break>, k: usize) -> (r: bool)
    requires
        cs@ == c.text@,
        0 < k < cs@.len(),
        cs@.len() > 0 && !text::white(cs@[0]),
        c.start_ms < c.end_ms,
    ensures
        r == turns(c@, kind)(k as int),
{
    match kind {
        None => Break::Sentence.is_at(cs, k) || Break::Clause.is_at(cs, k) || Break::Space.is_at(
            cs,
            k,
        ),
        Some(b) => {
            if !b.is_at(cs, k) {
                return false;
            }
            let turn: u64 = turn_of(c, cs, k);
            turn - c.start_ms >= MIN_CUE_MS && c.end_ms - turn >= MIN_CUE_MS
        },
    }
}

/// When the second half of `c` appears.
fn turn_of(c: &Cue, cs: &[char], k: usize) -> (r: u64)
    requires
        cs@ == c.text@,
        0 < k < cs@.len(),
        !text::white(cs@[0]),
        c.start_ms < c.end_ms,
    ensures
        r == turn_ms(c@, k as int),
        c.start_ms <= r <= c.end_ms,
{
    let front = slice_subrange(cs, 0, k);
    let back = slice_subrange(cs, k, cs.len());
    assert(front@ =~= cs@.take(k as int));
    assert(back@ =~= cs@.skip(k as int));
    let head: usize = text::trim_of(front).len();
    let tail: usize = text::trim_of(back).len();
    proof {
        text::lemma_trim(front@);
        text::lemma_trim(back@);
        assert(front@[0] == cs@[0]);
        assert(!text::blank(front@));
    }
    let stay: u64 = c.end_ms - c.start_ms;
    assert(stay as int * head as int <= 0xffff_ffff_ffff_ffff * 0xffff_ffff_ffff_ffff)
        by (nonlinear_arith)
        requires
            stay <= 0xffff_ffff_ffff_ffff,
            head <= 0xffff_ffff_ffff_ffff,
    ;
    let wide: u128 = (stay as u128) * (head as u128) / ((head + tail) as u128);
    assert(wide <= stay) by (nonlinear_arith)
        requires
            wide == stay as int * head as int / (head + tail),
            0 < head,
            0 <= tail,
            0 <= stay,
    ;
    c.start_ms + wide as u64
}

fn nearest_turn(c: &Cue, cs: &[char], kind: Option<Break>) -> (r: usize)
    requires
        cs@ == c.text@,
        cs@.len() > 0 && !text::white(cs@[0]),
        c.start_ms < c.end_ms,
    ensures
        r == nearest(cs@.len() as int, 0, turns(c@, kind)),
{
    let n: usize = cs.len();
    let mid: usize = n / 2;
    let mut d: usize = 0;
    while d < n
        invariant
            d <= n,
            n == cs@.len(),
            mid == n / 2,
            cs@ == c.text@,
            cs@.len() > 0 && !text::white(cs@[0]),
            c.start_ms < c.end_ms,
            nearest(n as int, 0, turns(c@, kind)) == nearest(n as int, d as int, turns(c@, kind)),
        decreases n - d,
    {
        if d < mid && is_turn(c, cs, kind, mid - d) {
            return mid - d;
        }
        if d < n - mid && mid + d > 0 && is_turn(c, cs, kind, mid + d) {
            return mid + d;
        }
        d += 1;
    }
    0
}

/// Where `c` is cut when it stays too long.
fn best_turn(c: &Cue, cs: &[char]) -> (r: usize)
    requires
        cs@ == c.text@,
        cs@.len() > 0 && !text::white(cs@[0]),
        c.start_ms < c.end_ms,
    ensures
        r == turn(c@),
{
    let sentence: usize = nearest_turn(c, cs, Some(Break::Sentence));
    if sentence > 0 {
        return sentence;
    }
    let clause: usize = nearest_turn(c, cs, Some(Break::Clause));
    if clause > 0 {
        return clause;
    }
    let space: usize = nearest_turn(c, cs, Some(Break::Space));
    if space > 0 {
        return space;
    }
    nearest_turn(c, cs, None)
}

/// Whether the text of `c` is not empty and has no whitespace at its ends, and it leaves after
/// it appears.
spec fn steady(c: CueView) -> bool {
    &&& c.text.len() > 0
    &&& !text::white(c.text[0])
    &&& !text::white(c.text.last())
    &&& c.start_ms < c.end_ms
}

/// Both halves of a cue that has a millisecond for every character are steady.
proof fn lemma_halves(c: CueView, k: int)
    requires
        steady(c),
        c.text.len() <= MAX_CUE_MS < span(c),
        parts_at(c.text, k),
    ensures
        steady(first_half(c, k)),
        steady(second_half(c, k)),
        first_half(c, k).text.len() < c.text.len(),
        second_half(c, k).text.len() < c.text.len(),
        c.start_ms < turn_ms(c, k) < c.end_ms,
        text::ink(first_half(c, k).text) + text::ink(second_half(c, k).text) == text::ink(c.text),
        text::occurrences(c.text, '\n') == 0 ==> text::occurrences(first_half(c, k).text, '\n')
            == 0 && text::occurrences(second_half(c, k).text, '\n') == 0,
{
    let front = c.text.take(k);
    let back = c.text.skip(k);
    let head = text::trim(front).len() as int;
    let tail = text::trim(back).len() as int;
    text::lemma_trim(front);
    text::lemma_trim(back);
    assert(front[0] == c.text[0]);
    assert(back.last() == c.text.last());
    assert(!text::blank(front));
    assert(!text::blank(back));
    let stay = span(c);
    let share = stay * head / (head + tail);
    assert(0 < share < stay) by (nonlinear_arith)
        requires
            share == stay * head / (head + tail),
            0 < head,
            0 < tail,
            head + tail <= stay,
    ;
    assert(front + back =~= c.text);
    text::lemma_ink_trim(front);
    text::lemma_ink_trim(back);
    text::lemma_ink_add(front, back);
    text::lemma_occurrences_add(front, back, '\n');
    text::lemma_occurrences_trim(front, '\n');
    text::lemma_occurrences_trim(back, '\n');
}

/// Pacing keeps the span of a cue and every word of it. The cues that it becomes follow one
/// another without a gap, and none that has a break left in it stays too long.
pub proof fn pacing_shares_the_span(c: CueView)
    requires
        visible(c),
        c.text.len() <= MAX_LINE_CHARS * MAX_LINES,
    ensures
        paced(c).len() > 0,
        paced(c)[0].start_ms == c.start_ms,
        paced(c).last().end_ms == c.end_ms,
        forall|i: int|
            0 <= i < paced(c).len() ==> {
                &&& visible(#[trigger] paced(c)[i])
                &&& c.start_ms <= paced(c)[i].start_ms
                &&& paced(c)[i].end_ms <= c.end_ms
                &&& paced(c)[i].text.len() <= c.text.len()
                &&& has_break(paced(c)[i].text) ==> span(paced(c)[i]) <= MAX_CUE_MS
            },
        forall|i: int|
            #![trigger paced(c)[i]]
            0 <= i < paced(c).len() - 1 ==> paced(c)[i].end_ms == paced(c)[i + 1].start_ms,
        text::ink(text::join(cue_texts(paced(c)), seq![])) == text::ink(c.text),
        text::occurrences(c.text, '\n') == 0 ==> forall|i: int|
            0 <= i < paced(c).len() ==> text::occurrences((#[trigger] paced(c)[i]).text, '\n') == 0,
    decreases c.text.len(),
{
    let k = turn(c);
    let all = paced(c);
    text::lemma_trim(c.text);
    lemma_turn(c);
    if span(c) <= MAX_CUE_MS || k == 0 {
        assert(all =~= seq![c]);
        assert(cue_texts(all) =~= seq![c.text]);
        assert(seq![c.text].drop_last() =~= seq![]);
        assert(text::join(seq![c.text], seq![]) =~= c.text);
    } else {
        let a = first_half(c, k);
        let b = second_half(c, k);
        lemma_halves(c, k);
        text::lemma_trim_fixed(a.text);
        text::lemma_trim_fixed(b.text);
        pacing_shares_the_span(a);
        pacing_shares_the_span(b);
        let left = paced(a);
        let right = paced(b);
        assert(all == left + right);
        assert forall|i: int| 0 <= i < all.len() implies {
            &&& visible(#[trigger] all[i])
            &&& c.start_ms <= all[i].start_ms
            &&& all[i].end_ms <= c.end_ms
            &&& all[i].text.len() <= c.text.len()
            &&& has_break(all[i].text) ==> span(all[i]) <= MAX_CUE_MS
            &&& text::occurrences(c.text, '\n') == 0 ==> text::occurrences(all[i].text, '\n') == 0
        } by {
            if i < left.len() {
                assert(all[i] == left[i]);
            } else {
                assert(all[i] == right[i - left.len()]);
            }
        }
        assert forall|i: int| #![trigger all[i]] 0 <= i < all.len() - 1 implies all[i].end_ms
            == all[i + 1].start_ms by {
            if i + 1 < left.len() {
                assert(all[i] == left[i] && all[i + 1] == left[i + 1]);
            } else if i + 1 == left.len() {
                assert(all[i] == left.last() && all[i + 1] == right[0]);
            } else {
                let j = i - left.len();
                assert(all[i] == right[j] && all[i + 1] == right[j + 1]);
            }
        }
        assert(cue_texts(all) =~= cue_texts(left) + cue_texts(right));
        lemma_join_add(cue_texts(left), cue_texts(right));
        text::lemma_ink_add(
            text::join(cue_texts(left), seq![]),
            text::join(cue_texts(right), seq![]),
        );
    }
}

/// Puts `c` behind `out`, as consecutive cues that do not stay too long.
fn pace(out: &mut Vec<Cue>, c: Cue)
    requires
        visible(c@),
        c.text@.len() <= MAX_LINE_CHARS * MAX_LINES,
        c.translated is None,
    ensures
        views(final(out)@) == views(old(out)@) + paced(c@),
    decreases c.text@.len(),
{
    let cs = text::chars_of(&c.text);
    let ghost before = views(out@);
    proof {
        text::lemma_trim(c.text@);
        lemma_turn(c@);
    }
    let k: usize = if c.end_ms - c.start_ms > MAX_CUE_MS {
        best_turn(&c, cs.as_slice())
    } else {
        0
    };
    if k == 0 {
        let ghost whole = c@;
        out.push(c);
        assert(views(out@) =~= before + seq![whole]);
        return;
    }
    proof {
        lemma_halves(c@, k as int);
    }
    let turn: u64 = turn_of(&c, cs.as_slice(), k);
    let front = slice_subrange(cs.as_slice(), 0, k);
    let back = slice_subrange(cs.as_slice(), k, cs.len());
    assert(front@ =~= cs@.take(k as int));
    assert(back@ =~= cs@.skip(k as int));
    let first = Cue {
        start_ms: c.start_ms,
        end_ms: turn,
        text: text::string_of(text::trim_of(front)),
        translated: None,
    };
    let second = Cue {
        start_ms: turn,
        end_ms: c.end_ms,
        text: text::string_of(text::trim_of(back)),
        translated: None,
    };
    assert(first@ =~= first_half(c@, k as int));
    assert(second@ =~= second_half(c@, k as int));
    proof {
        text::lemma_trim_fixed(first.text@);
        text::lemma_trim_fixed(second.text@);
    }
    pace(out, first);
    pace(out, second);
    assert(views(out@) =~= before + paced(c@));
}

/// The cue that a segment of a window becomes on the media's own timeline. A segment that
/// is empty or inverted gets the shortest time a cue may stay on screen.
pub open spec fn segment_cue(offset: int, segment: TranscriptSegment) -> CueView {
    let floor = segment.start_ms + MIN_CUE_MS;
    CueView {
        start_ms: offset + segment.start_ms,
        end_ms: offset + if segment.end_ms > floor {
            segment.end_ms as int
        } else {
            floor
        },
        text: speech(segment.text@),
        translated: None,
    }
}

/// The cues of a window's segments: silence dropped, and those that are too long, or stay too
/// long, split.
pub open spec fn segment_cues(offset: int, segments: Seq<TranscriptSegment>) -> Seq<CueView>
    decreases segments.len(),
{
    if segments.len() == 0 {
        seq![]
    } else {
        let c = segment_cue(offset, segments.last());
        let before = segment_cues(offset, segments.drop_last());
        if c.text.len() == 0 {
            before
        } else {
            before + all_paced(split_cue(c))
        }
    }
}

/// The one coarse cue of a window whose engine gave no timings.
pub open spec fn window_cue(offset: int, fallback: Seq<char>, duration: int) -> CueView {
    CueView {
        start_ms: offset,
        end_ms: offset + if duration > MIN_CUE_MS {
            duration
        } else {
            MIN_CUE_MS as int
        },
        text: speech(fallback),
        translated: None,
    }
}

/// The cues of one window.
pub open spec fn window_cues(
    offset: int,
    segments: Seq<TranscriptSegment>,
    fallback: Seq<char>,
    duration: int,
) -> Seq<CueView> {
    if segments.len() > 0 {
        segment_cues(offset, segments)
    } else if speech(fallback).len() > 0 {
        split_cue(window_cue(offset, fallback, duration))
    } else {
        seq![]
    }
}

/// Puts each of `parts` behind `out`, as cues that do not stay too long.
fn pace_all(out: &mut Vec<Cue>, parts: &[Cue])
    requires
        forall|i: int|
            0 <= i < parts@.len() ==> {
                &&& visible((#[trigger] parts@[i])@)
                &&& parts@[i].text@.len() <= MAX_LINE_CHARS * MAX_LINES
                &&& parts@[i].translated is None
            },
    ensures
        views(final(out)@) == views(old(out)@) + all_paced(views(parts@)),
{
    let mut i: usize = 0;
    let ghost before = views(out@);
    assert(before + all_paced(views(parts@).take(0)) =~= before);
    while i < parts.len()
        invariant
            i <= parts@.len(),
            forall|i: int|
                0 <= i < parts@.len() ==> {
                    &&& visible((#[trigger] parts@[i])@)
                    &&& parts@[i].text@.len() <= MAX_LINE_CHARS * MAX_LINES
                    &&& parts@[i].translated is None
                },
            views(out@) == before + all_paced(views(parts@).take(i as int)),
        decreases parts@.len() - i,
    {
        let part = parts[i].duplicate();
        assert(part@ == parts@[i as int]@);
        assert(parts@[i as int]@.translated is None);
        assert(views(parts@).take(i + 1).drop_last() =~= views(parts@).take(i as int));
        assert(views(parts@).take(i + 1).last() == part@);
        let ghost so_far = all_paced(views(parts@).take(i as int));
        let ghost more = paced(part@);
        pace(out, part);
        assert((before + so_far) + more =~= before + (so_far + more));
        i += 1;
    }
    assert(views(parts@).take(i as int) =~= views(parts@));
}

/// Turns one window's engine segments into cues on the media's absolute timeline.
///
/// `offset_ms` is the window's start: engine times are relative to the window. Segments
/// the engine emits for silence are dropped, and long ones are split. A window with text but no segments becomes
/// one coarse cue spanning it, which beats losing the speech.
pub fn cues_from_segments(
    offset_ms: u64,
    segments: &[TranscriptSegment],
    fallback_text: &str,
    window_duration_ms: u64,
) -> (r: Vec<Cue>)
    requires
        forall|i: int|
            0 <= i < segments@.len() && speech(segments@[i].text@).len() > 0 ==> segment_cue(
                offset_ms as int,
                #[trigger] segments@[i],
            ).end_ms <= u64::MAX,
        segments@.len() == 0 && speech(fallback_text@).len() > 0 ==> window_cue(
            offset_ms as int,
            fallback_text@,
            window_duration_ms as int,
        ).end_ms <= u64::MAX,
    ensures
        views(r@) == window_cues(
            offset_ms as int,
            segments@,
            fallback_text@,
            window_duration_ms as int,
        ),
{
    let mut out: Vec<Cue> = Vec::new();
    assert(views(out@) =~= seq![]);
    if segments.len() == 0 {
        let text = speech_of(fallback_text);
        if text.as_str().is_empty() {
            return out;
        }
        let length: u64 = if window_duration_ms > MIN_CUE_MS {
            window_duration_ms
        } else {
            MIN_CUE_MS
        };
        return split_long(
            &Cue { start_ms: offset_ms, end_ms: offset_ms + length, text, translated: None },
        );
    }
    let mut i: usize = 0;
    while i < segments.len()
        invariant
            i <= segments.len(),
            forall|i: int|
                0 <= i < segments@.len() && speech(segments@[i].text@).len() > 0 ==> segment_cue(
                    offset_ms as int,
                    #[trigger] segments@[i],
                ).end_ms <= u64::MAX,
            views(out@) == segment_cues(offset_ms as int, segments@.take(i as int)),
        decreases segments.len() - i,
    {
        let segment = &segments[i];
        assert(segments@.take(i + 1).drop_last() =~= segments@.take(i as int));
        let text = speech_of(&segment.text);
        if !text.as_str().is_empty() {
            let floor: u64 = segment.start_ms + MIN_CUE_MS;
            let end: u64 = if segment.end_ms > floor {
                segment.end_ms
            } else {
                floor
            };
            let whole = Cue {
                start_ms: offset_ms + segment.start_ms,
                end_ms: offset_ms + end,
                text,
                translated: None,
            };
            let parts = split_long(&whole);
            proof {
                speech_keeps_every_word(segment.text@);
                lemma_split_visible(whole@);
                lemma_split_fits(whole@);
                assert forall|j: int| 0 <= j < parts@.len() implies {
                    &&& visible((#[trigger] parts@[j])@)
                    &&& parts@[j].text@.len() <= MAX_LINE_CHARS * MAX_LINES
                    &&& parts@[j].translated is None
                } by {
                    assert(views(parts@)[j] == parts@[j]@);
                    assert(split_cue(whole@)[j].translated is None);
                    assert(fits_two_lines(split_cue(whole@)[j]));
                }
                assert(whole@ == segment_cue(offset_ms as int, *segment));
            }
            pace_all(&mut out, parts.as_slice());
        }
        i += 1;
    }
    assert(segments@.take(i as int) =~= segments@);
    out
}

/// The texts of `cues`, in order.
pub open spec fn cue_texts(cues: Seq<CueView>) -> Seq<Seq<char>> {
    cues.map_values(|c: CueView| c.text)
}

/// What the segments of a window say, in order.
pub open spec fn spoken(segments: Seq<TranscriptSegment>) -> Seq<Seq<char>> {
    segments.map_values(|s: TranscriptSegment| speech(s.text@))
}

/// The cue's text is not empty and it leaves after it appears.
pub open spec fn visible(c: CueView) -> bool {
    &&& c.text.len() > 0
    &&& text::trim(c.text) == c.text
    &&& c.start_ms < c.end_ms
}

proof fn lemma_split_visible(c: CueView)
    requires
        c.start_ms < c.end_ms,
        c.text.len() > 0,
        text::tidy(c.text),
    ensures
        forall|i: int|
            0 <= i < split_cue(c).len() ==> visible(#[trigger] split_cue(c)[i]) && c.start_ms
                <= split_cue(c)[i].start_ms && split_cue(c)[i].end_ms <= c.end_ms,
        text::ink(text::join(cue_texts(split_cue(c)), seq![])) == text::ink(c.text),
{
    splitting_shares_the_span(c);
    assert(!text::white(c.text[0]) && !text::white(c.text.last()));
    text::lemma_trim_fixed(c.text);
    lemma_chunks(c.text, (MAX_LINE_CHARS * MAX_LINES) as nat);
    let parts = cue_parts(c);
    if parts.len() > 1 {
        assert(cue_texts(split_cue(c)) =~= parts);
        assert forall|i: int| 0 <= i < split_cue(c).len() implies visible(
            #[trigger] split_cue(c)[i],
        ) by {
            text::lemma_trim_fixed(parts[i]);
        }
    } else {
        assert(cue_texts(split_cue(c)) =~= seq![c.text]);
    }
}

/// Parts in a row, then more parts in a row.
proof fn lemma_join_add(a: Seq<Seq<char>>, b: Seq<Seq<char>>)
    ensures
        text::join(a + b, seq![]) == text::join(a, seq![]) + text::join(b, seq![]),
    decreases a.len(),
{
    if a.len() == 0 {
        assert(a + b =~= b);
        assert(text::join(a, seq![]) + text::join(b, seq![]) =~= text::join(b, seq![]));
    } else {
        let rest = a.drop_first();
        lemma_join_add(rest, b);
        assert(seq![a[0]] + rest =~= a);
        assert(seq![a[0]] + (rest + b) =~= a + b);
        text::lemma_join_first(a[0], rest);
        text::lemma_join_first(a[0], rest + b);
        assert(a[0] + (text::join(rest, seq![]) + text::join(b, seq![])) =~= a[0] + text::join(
            rest,
            seq![],
        ) + text::join(b, seq![]));
    }
}

proof fn lemma_all_paced(cues: Seq<CueView>, low: int)
    requires
        forall|i: int|
            0 <= i < cues.len() ==> {
                &&& visible(#[trigger] cues[i])
                &&& low <= cues[i].start_ms
                &&& cues[i].text.len() <= MAX_LINE_CHARS * MAX_LINES
                &&& text::occurrences(cues[i].text, '\n') == 0
            },
    ensures
        forall|i: int|
            0 <= i < all_paced(cues).len() ==> {
                &&& visible(#[trigger] all_paced(cues)[i])
                &&& low <= all_paced(cues)[i].start_ms
                &&& fits_two_lines(all_paced(cues)[i])
                &&& has_break(all_paced(cues)[i].text) ==> span(all_paced(cues)[i]) <= MAX_CUE_MS
            },
        text::ink(text::join(cue_texts(all_paced(cues)), seq![])) == text::ink(
            text::join(cue_texts(cues), seq![]),
        ),
    decreases cues.len(),
{
    if cues.len() == 0 {
        assert(cue_texts(all_paced(cues)) =~= cue_texts(cues));
    } else {
        let front = cues.drop_last();
        let c = cues.last();
        assert(c == cues[cues.len() - 1]);
        assert forall|i: int| 0 <= i < front.len() implies {
            &&& visible(#[trigger] front[i])
            &&& low <= front[i].start_ms
            &&& front[i].text.len() <= MAX_LINE_CHARS * MAX_LINES
            &&& text::occurrences(front[i].text, '\n') == 0
        } by {
            assert(front[i] == cues[i]);
        }
        lemma_all_paced(front, low);
        pacing_shares_the_span(c);
        let before = all_paced(front);
        let more = paced(c);
        let all = all_paced(cues);
        assert forall|i: int| 0 <= i < all.len() implies {
            &&& visible(#[trigger] all[i])
            &&& low <= all[i].start_ms
            &&& fits_two_lines(all[i])
            &&& has_break(all[i].text) ==> span(all[i]) <= MAX_CUE_MS
        } by {
            if i < before.len() {
                assert(all[i] == before[i]);
            } else {
                assert(all[i] == more[i - before.len()]);
                wrapping_keeps_every_word_on_two_lines(all[i].text);
            }
        }
        assert(cue_texts(all) =~= cue_texts(before) + cue_texts(more));
        assert(cue_texts(cues) =~= cue_texts(front) + seq![c.text]);
        lemma_join_add(cue_texts(before), cue_texts(more));
        lemma_join_add(cue_texts(front), seq![c.text]);
        assert(seq![c.text].drop_last() =~= seq![]);
        assert(text::join(seq![c.text], seq![]) =~= c.text);
        text::lemma_ink_add(
            text::join(cue_texts(before), seq![]),
            text::join(cue_texts(more), seq![]),
        );
        text::lemma_ink_add(text::join(cue_texts(front), seq![]), c.text);
    }
}

/// What the cue of a segment becomes.
proof fn lemma_segment_paced(c: CueView)
    requires
        c.start_ms < c.end_ms,
        c.text.len() > 0,
        text::tidy(c.text),
    ensures
        forall|i: int|
            0 <= i < all_paced(split_cue(c)).len() ==> {
                &&& visible(#[trigger] all_paced(split_cue(c))[i])
                &&& c.start_ms <= all_paced(split_cue(c))[i].start_ms
                &&& fits_two_lines(all_paced(split_cue(c))[i])
                &&& has_break(all_paced(split_cue(c))[i].text) ==> span(
                    all_paced(split_cue(c))[i],
                ) <= MAX_CUE_MS
            },
        text::ink(text::join(cue_texts(all_paced(split_cue(c))), seq![])) == text::ink(c.text),
{
    lemma_split_visible(c);
    lemma_split_fits(c);
    let parts = split_cue(c);
    assert forall|i: int| 0 <= i < parts.len() implies {
        &&& visible(#[trigger] parts[i])
        &&& c.start_ms <= parts[i].start_ms
        &&& parts[i].text.len() <= MAX_LINE_CHARS * MAX_LINES
        &&& text::occurrences(parts[i].text, '\n') == 0
    } by {
        assert(fits_two_lines(parts[i]));
    }
    lemma_all_paced(parts, c.start_ms);
}

/// No cue of a timed segment stays on screen for more than [`MAX_CUE_MS`], unless there is no
/// place left at which its text can be broken.
pub proof fn timed_cues_leave_in_time(offset: int, segments: Seq<TranscriptSegment>)
    ensures
        forall|i: int|
            0 <= i < segment_cues(offset, segments).len() && has_break(
                (#[trigger] segment_cues(offset, segments)[i]).text,
            ) ==> span(segment_cues(offset, segments)[i]) <= MAX_CUE_MS,
    decreases segments.len(),
{
    if segments.len() > 0 {
        let front = segments.drop_last();
        let c = segment_cue(offset, segments.last());
        let before = segment_cues(offset, front);
        let all = segment_cues(offset, segments);
        timed_cues_leave_in_time(offset, front);
        speech_keeps_every_word(segments.last().text@);
        if c.text.len() > 0 {
            lemma_segment_paced(c);
        }
        assert forall|i: int| 0 <= i < all.len() && has_break((#[trigger] all[i]).text) implies span(
            all[i],
        ) <= MAX_CUE_MS by {
            if i < before.len() {
                assert(all[i] == before[i]);
            } else {
                assert(all[i] == all_paced(split_cue(c))[i - before.len()]);
            }
        }
    }
}

/// The cues of a window's segments are all visible, none appears before the window does,
/// and together they hold every word that was spoken, in order.
pub proof fn segments_become_visible_cues(offset: int, segments: Seq<TranscriptSegment>)
    ensures
        forall|i: int|
            0 <= i < segment_cues(offset, segments).len() ==> visible(
                #[trigger] segment_cues(offset, segments)[i],
            ) && offset <= segment_cues(offset, segments)[i].start_ms,
        text::ink(text::join(cue_texts(segment_cues(offset, segments)), seq![])) == text::ink(
            text::join(spoken(segments), seq![]),
        ),
    decreases segments.len(),
{
    if segments.len() > 0 {
        let front = segments.drop_last();
        let c = segment_cue(offset, segments.last());
        let before = segment_cues(offset, front);
        segments_become_visible_cues(offset, front);
        speech_keeps_every_word(segments.last().text@);
        assert(spoken(segments) =~= spoken(front) + seq![c.text]);
        lemma_join_add(spoken(front), seq![c.text]);
        text::lemma_ink_add(text::join(spoken(front), seq![]), c.text);
        if c.text.len() > 0 {
            lemma_segment_paced(c);
            let more = all_paced(split_cue(c));
            assert(cue_texts(before + more) =~= cue_texts(before) + cue_texts(more));
            lemma_join_add(cue_texts(before), cue_texts(more));
            text::lemma_ink_add(
                text::join(cue_texts(before), seq![]),
                text::join(cue_texts(more), seq![]),
            );
            let all = segment_cues(offset, segments);
            assert forall|i: int| 0 <= i < all.len() implies visible(#[trigger] all[i]) && offset
                <= all[i].start_ms by {
                if i >= before.len() {
                    assert(all[i] == more[i - before.len()]);
                }
            }
        } else {
            assert(text::ink(c.text) =~= seq![]);
            assert(text::ink(text::join(spoken(front), seq![])) + text::ink(c.text) =~= text::ink(
                text::join(spoken(front), seq![]),
            ));
        }
    } else {
        assert(cue_texts(segment_cues(offset, segments)) =~= seq![]);
        assert(spoken(segments) =~= seq![]);
    }
}

/// Whether a cue goes before another: by the time it appears, then by the time it leaves.
pub open spec fn earlier(a: CueView, b: CueView) -> bool {
    a.start_ms < b.start_ms || (a.start_ms == b.start_ms && a.end_ms < b.end_ms)
}

/// The order of cues in a file.
pub open spec fn by_time() -> spec_fn(CueView, CueView) -> bool {
    |a: CueView, b: CueView| earlier(a, b)
}

/// `cues` in order, equals as they came.
pub open spec fn sorted_cues(cues: Seq<CueView>) -> Seq<CueView> {
    order::sorted(cues, by_time())
}

impl order::Ranked for Cue {
    open spec fn rank() -> spec_fn(CueView, CueView) -> bool {
        by_time()
    }

    open spec fn ready(&self) -> bool {
        true
    }

    fn goes_before(&self, other: &Self) -> (r: bool) {
        self.start_ms < other.start_ms || (self.start_ms == other.start_ms && self.end_ms
            < other.end_ms)
    }
}

/// The cues that say something.
pub open spec fn spoken_cues(cues: Seq<CueView>) -> Seq<CueView>
    decreases cues.len(),
{
    if cues.len() == 0 {
        seq![]
    } else if text::trim(cues.last().text).len() == 0 {
        spoken_cues(cues.drop_last())
    } else {
        spoken_cues(cues.drop_last()).push(cues.last())
    }
}

/// When a cue leaves: it stays at least [`MIN_CUE_MS`], but leaves [`CUE_GAP_MS`] before
/// the next one appears. Where there is no room for that it stays a millisecond, and where
/// the next one appears at the same time, it gives way to it.
pub open spec fn settled_end(start: int, end: int, next: Option<int>) -> int {
    let stay = if end < start + MIN_CUE_MS {
        start + MIN_CUE_MS
    } else {
        end
    };
    match next {
        Some(n) if stay + CUE_GAP_MS > n => if n - CUE_GAP_MS > start + 1 {
            n - CUE_GAP_MS
        } else if n > start {
            start + 1
        } else {
            start
        },
        _ => stay,
    }
}

/// Cue `i` of `cues`, leaving when it should.
pub open spec fn settled(cues: Seq<CueView>, i: int) -> CueView {
    let next = if i + 1 < cues.len() {
        Some(cues[i + 1].start_ms)
    } else {
        None
    };
    CueView { end_ms: settled_end(cues[i].start_ms, cues[i].end_ms, next), ..cues[i] }
}

/// A whole file's cues, ordered, kept apart, and on screen long enough to be read.
pub open spec fn normalized(cues: Seq<CueView>) -> Seq<CueView> {
    let s = sorted_cues(spoken_cues(cues));
    Seq::new(s.len(), |i: int| settled(s, i))
}

/// Final pass over a whole file's cues: orders them, stops them overlapping, and gives each
/// one a sane minimum time on screen.
///
/// An end is only ever pulled earlier. Pushing the next cue later would cascade the whole
/// file off the audio.
pub fn normalize(cues: Vec<Cue>) -> (r: Vec<Cue>)
    requires
        forall|i: int|
            0 <= i < cues@.len() && text::trim(cues@[i].text@).len() > 0 ==> (
            #[trigger] cues@[i]).start_ms + MIN_CUE_MS <= u64::MAX,
    ensures
        views(r@) == normalized(views(cues@)),
        forall|i: int|
            #![trigger r@[i]]
            0 <= i < r@.len() - 1 ==> r@[i].end_ms <= r@[i + 1].start_ms,
{
    let mut kept: Vec<Cue> = Vec::new();
    let mut k: usize = 0;
    assert(views(kept@) =~= seq![]);
    while k < cues.len()
        invariant
            k <= cues.len(),
            forall|i: int|
                0 <= i < cues@.len() && text::trim(cues@[i].text@).len() > 0 ==> (
                #[trigger] cues@[i]).start_ms + MIN_CUE_MS <= u64::MAX,
            forall|i: int|
                0 <= i < kept@.len() ==> (#[trigger] kept@[i]).start_ms + MIN_CUE_MS <= u64::MAX,
            views(kept@) == sorted_cues(spoken_cues(views(cues@).take(k as int))),
        decreases cues.len() - k,
    {
        let ghost before = kept@;
        let ghost seen = spoken_cues(views(cues@).take(k as int));
        assert(views(cues@).take(k + 1).drop_last() =~= views(cues@).take(k as int));
        if text::trimmed(&cues[k].text).len() > 0 {
            let c = cues[k].duplicate();
            assert(seen.push(c@).drop_last() =~= seen);
            order::insert(&mut kept, c);
            proof {
                broadcast use vstd::seq_lib::group_to_multiset_ensures;

                assert(order::views(before) =~= views(before));
                assert(order::views(kept@) =~= views(kept@));
                order::lemma_inserted_holds(views(before), c@, by_time());
                assert forall|i: int| 0 <= i < kept@.len() implies (#[trigger] kept@[i]).start_ms
                    + MIN_CUE_MS <= u64::MAX by {
                    let v = views(kept@)[i];
                    assert(views(kept@).to_multiset().count(v) > 0);
                    if v != c@ {
                        assert(views(before).contains(v));
                        let j = choose|j: int| 0 <= j < before.len() && views(before)[j] == v;
                        assert(views(before)[j] == before[j]@);
                    }
                }
            }
        }
        k += 1;
    }
    assert(views(cues@).take(k as int) =~= views(cues@));
    let ghost s = views(kept@);
    let mut out: Vec<Cue> = Vec::new();
    let mut i: usize = 0;
    while i < kept.len()
        invariant
            i <= kept.len(),
            s == views(kept@),
            forall|i: int|
                0 <= i < kept@.len() ==> (#[trigger] kept@[i]).start_ms + MIN_CUE_MS <= u64::MAX,
            views(out@) == Seq::new(i as nat, |j: int| settled(s, j)),
        decreases kept.len() - i,
    {
        let mut c = kept[i].duplicate();
        assert(s[i as int] == kept@[i as int]@);
        if c.end_ms < c.start_ms + MIN_CUE_MS {
            c.end_ms = c.start_ms + MIN_CUE_MS;
        }
        if i + 1 < kept.len() {
            let next: u64 = kept[i + 1].start_ms;
            assert(s[i + 1] == kept@[i + 1]@);
            if next < CUE_GAP_MS || c.end_ms > next - CUE_GAP_MS {
                c.end_ms = if next >= CUE_GAP_MS && next - CUE_GAP_MS > c.start_ms + 1 {
                    next - CUE_GAP_MS
                } else if next > c.start_ms {
                    c.start_ms + 1
                } else {
                    c.start_ms
                };
            }
        }
        assert(c@ =~= settled(s, i as int));
        let ghost before = views(out@);
        out.push(c);
        assert(views(out@) =~= before.push(settled(s, i as int)));
        i += 1;
        assert(views(out@) =~= Seq::new(i as nat, |j: int| settled(s, j)));
    }
    proof {
        normalizing_separates(views(cues@));
        assert forall|i: int| #![trigger out@[i]] 0 <= i < out@.len() - 1 implies out@[i].end_ms
            <= out@[i + 1].start_ms by {
            assert(views(out@)[i] == out@[i]@);
            assert(views(out@)[i + 1] == out@[i + 1]@);
        }
    }
    out
}

proof fn lemma_by_time()
    ensures
        order::ranks(by_time()),
{
}

/// Only cues that say something are kept.
proof fn lemma_spoken(cues: Seq<CueView>)
    ensures
        forall|i: int|
            0 <= i < spoken_cues(cues).len() ==> text::trim(
                (#[trigger] spoken_cues(cues)[i]).text,
            ).len() > 0,
    decreases cues.len(),
{
    if cues.len() > 0 {
        lemma_spoken(cues.drop_last());
    }
}

proof fn lemma_spoken_fixed(cues: Seq<CueView>)
    requires
        forall|i: int| 0 <= i < cues.len() ==> text::trim((#[trigger] cues[i]).text).len() > 0,
    ensures
        spoken_cues(cues) == cues,
    decreases cues.len(),
{
    if cues.len() > 0 {
        let front = cues.drop_last();
        assert(text::trim(cues[cues.len() - 1].text).len() > 0);
        assert forall|i: int| 0 <= i < front.len() implies text::trim(
            (#[trigger] front[i]).text,
        ).len() > 0 by {
            assert(front[i] == cues[i]);
        }
        lemma_spoken_fixed(front);
        assert(front.push(cues.last()) =~= cues);
    }
}

proof fn lemma_no_line_break(s: Seq<char>)
    requires
        text::tidy(s),
    ensures
        text::occurrences(s, '\n') == 0,
{
    assert forall|i: int| 0 <= i < s.len() implies #[trigger] s[i] != '\n' by {
        if text::white(s[i]) {
            assert(s[i] == ' ');
        }
    }
    lemma_no_occurrence(s, '\n');
}

proof fn lemma_no_occurrence(s: Seq<char>, c: char)
    requires
        forall|i: int| 0 <= i < s.len() ==> #[trigger] s[i] != c,
    ensures
        text::occurrences(s, c) == 0,
    decreases s.len(),
{
    if s.len() > 0 {
        let front = s.drop_last();
        assert forall|i: int| 0 <= i < front.len() implies #[trigger] front[i] != c by {
            assert(s[i] != c);
        }
        lemma_no_occurrence(front, c);
    }
}

/// Whether two lines hold the text of a cue, short ones where a space splits it so.
pub open spec fn fits_two_lines(c: CueView) -> bool {
    &&& c.text.len() <= MAX_LINE_CHARS * MAX_LINES
    &&& text::occurrences(wrapped(c.text), '\n') < MAX_LINES
    &&& breakable(c.text) ==> short_lines(wrapped(c.text))
}

proof fn lemma_split_fits(c: CueView)
    requires
        c.text.len() > 0,
        text::tidy(c.text),
    ensures
        forall|i: int|
            0 <= i < split_cue(c).len() ==> fits_two_lines(#[trigger] split_cue(c)[i])
                && text::occurrences(split_cue(c)[i].text, '\n') == 0,
{
    let budget = (MAX_LINE_CHARS * MAX_LINES) as nat;
    let t = c.text;
    let parts = cue_parts(c);
    assert(!text::white(t[0]) && !text::white(t.last()));
    text::lemma_trim_fixed(t);
    lemma_chunks(t, budget);
    lemma_no_line_break(t);
    lemma_chunks_occurrences(t, budget, '\n');
    assert forall|i: int| 0 <= i < split_cue(c).len() implies fits_two_lines(
        #[trigger] split_cue(c)[i],
    ) && text::occurrences(split_cue(c)[i].text, '\n') == 0 by {
        if parts.len() > 1 {
            text::lemma_occurrences_parts(parts, '\n', i);
            wrapping_keeps_every_word_on_two_lines(parts[i]);
        } else {
            wrapping_keeps_every_word_on_two_lines(t);
            if t.len() > budget {
                let cut = best_cut(t, budget);
                let front = t.take(cut);
                let back = t.skip(cut);
                lemma_best_cut(t, budget);
                text::lemma_trim(front);
                text::lemma_trim_start(back);
                assert(front[0] == t[0]);
                assert(back.last() == t.last());
                let head = text::trim(front);
                let tail = text::trim_start(back);
                assert(head.len() > 0);
                if tail.len() == 0 {
                    assert(back.take(back.len() as int)[back.len() - 1] == back.last());
                }
                assert(tail.last() == back.last());
                lemma_chunks(tail, budget);
                assert(parts == seq![head] + chunks(tail, budget));
            }
        }
    }
}

/// Whatever an engine returns for a window, each of its cues is at most two lines' worth of
/// text, and is shown on at most two lines, neither too long where a space splits the text
/// so.
pub proof fn cues_of_a_window_fit_two_lines(
    offset: int,
    segments: Seq<TranscriptSegment>,
    fallback: Seq<char>,
    duration: int,
)
    ensures
        forall|i: int|
            0 <= i < window_cues(offset, segments, fallback, duration).len() ==> fits_two_lines(
                #[trigger] window_cues(offset, segments, fallback, duration)[i],
            ),
{
    lemma_segments_fit(offset, segments);
    speech_keeps_every_word(fallback);
    if speech(fallback).len() > 0 {
        lemma_split_fits(window_cue(offset, fallback, duration));
    }
}

proof fn lemma_segments_fit(offset: int, segments: Seq<TranscriptSegment>)
    ensures
        forall|i: int|
            0 <= i < segment_cues(offset, segments).len() ==> fits_two_lines(
                #[trigger] segment_cues(offset, segments)[i],
            ),
    decreases segments.len(),
{
    if segments.len() > 0 {
        let c = segment_cue(offset, segments.last());
        let before = segment_cues(offset, segments.drop_last());
        lemma_segments_fit(offset, segments.drop_last());
        speech_keeps_every_word(segments.last().text@);
        if c.text.len() > 0 {
            lemma_segment_paced(c);
            let all = segment_cues(offset, segments);
            assert forall|i: int| 0 <= i < all.len() implies fits_two_lines(#[trigger] all[i]) by {
                if i < before.len() {
                    assert(all[i] == before[i]);
                } else {
                    assert(all[i] == all_paced(split_cue(c))[i - before.len()]);
                }
            }
        }
    }
}

/// Normalizing keeps exactly the cues that say something, each with its text, its
/// translation and the time it appears, in the order in which they appear. None leaves later
/// than before but to get its minimum time on screen.
pub proof fn normalizing_keeps_what_is_said(cues: Seq<CueView>)
    ensures
        normalized(cues).len() == spoken_cues(cues).len(),
        sorted_cues(spoken_cues(cues)).to_multiset() == spoken_cues(cues).to_multiset(),
        forall|i: int|
            #![trigger normalized(cues)[i]]
            0 <= i < normalized(cues).len() ==> {
                let was = sorted_cues(spoken_cues(cues))[i];
                let is = normalized(cues)[i];
                &&& is.start_ms == was.start_ms
                &&& is.text == was.text
                &&& is.translated == was.translated
                &&& text::trim(is.text).len() > 0
                &&& is.end_ms <= was.end_ms || is.end_ms <= is.start_ms + MIN_CUE_MS
            },
        forall|i: int, j: int|
            0 <= i < j < normalized(cues).len() ==> (#[trigger] normalized(cues)[i]).start_ms <= (
            #[trigger] normalized(cues)[j]).start_ms,
{
    let kept = spoken_cues(cues);
    let s = sorted_cues(kept);
    lemma_by_time();
    order::lemma_sorted(kept, by_time());
    lemma_spoken(cues);
    assert forall|i: int| 0 <= i < s.len() implies text::trim((#[trigger] s[i]).text).len() > 0 by {
        broadcast use vstd::seq_lib::group_to_multiset_ensures;

        assert(s.to_multiset().count(s[i]) > 0);
        assert(kept.contains(s[i]));
    }
    let out = normalized(cues);
    assert forall|i: int, j: int| 0 <= i < j < out.len() implies (#[trigger] out[i]).start_ms <= (
    #[trigger] out[j]).start_ms by {
        assert(!earlier(s[j], s[i]));
    }
}

/// After normalizing, no cue overlaps the next one: it leaves no later than that one appears,
/// with a gap where there is room for one. Every cue leaves after it appears, unless the next
/// one appears at the same time. It has its minimum time on screen unless the next one is too
/// close.
pub proof fn normalizing_separates(cues: Seq<CueView>)
    ensures
        forall|i: int|
            #![trigger normalized(cues)[i]]
            0 <= i < normalized(cues).len() ==> {
                let c = normalized(cues)[i];
                let last = i + 1 == normalized(cues).len();
                let next = normalized(cues)[i + 1].start_ms;
                &&& !last ==> c.end_ms <= next
                &&& last || c.start_ms < next ==> c.start_ms < c.end_ms
                &&& c.start_ms <= c.end_ms
                &&& !last && c.start_ms + CUE_GAP_MS < next ==> c.end_ms + CUE_GAP_MS <= next
                &&& last || c.start_ms + MIN_CUE_MS + CUE_GAP_MS <= next ==> c.start_ms + MIN_CUE_MS
                    <= c.end_ms
            },
{
    normalizing_keeps_what_is_said(cues);
    let s = sorted_cues(spoken_cues(cues));
    let out = normalized(cues);
    assert forall|i: int| #![trigger out[i]] 0 <= i < out.len() implies {
        let c = out[i];
        let last = i + 1 == out.len();
        let next = out[i + 1].start_ms;
        &&& !last ==> c.end_ms <= next
        &&& last || c.start_ms < next ==> c.start_ms < c.end_ms
        &&& c.start_ms <= c.end_ms
        &&& !last && c.start_ms + CUE_GAP_MS < next ==> c.end_ms + CUE_GAP_MS <= next
        &&& last || c.start_ms + MIN_CUE_MS + CUE_GAP_MS <= next ==> c.start_ms + MIN_CUE_MS
            <= c.end_ms
    } by {
        assert(out[i] == settled(s, i));
        if i + 1 < out.len() {
            assert(out[i + 1] == settled(s, i + 1));
        }
    }
}

/// Normalizing twice is normalizing once.
pub proof fn normalizing_is_idempotent(cues: Seq<CueView>)
    ensures
        normalized(normalized(cues)) == normalized(cues),
{
    normalizing_keeps_what_is_said(cues);
    normalizing_separates(cues);
    let s = sorted_cues(spoken_cues(cues));
    let out = normalized(cues);
    lemma_spoken_fixed(out);
    assert(order::in_order(out, by_time())) by {
        lemma_by_time();
        order::lemma_sorted(spoken_cues(cues), by_time());
        assert forall|i: int, j: int| 0 <= i < j < out.len() implies !earlier(
            #[trigger] out[j],
            #[trigger] out[i],
        ) by {
            assert(out[i] == settled(s, i));
            assert(out[i].start_ms <= out[i + 1].start_ms <= out[j].start_ms);
            if out[i].start_ms == out[j].start_ms {
                assert(s[i + 1].start_ms == s[i].start_ms);
                assert(out[i].end_ms == out[i].start_ms);
                assert(out[j].start_ms <= out[j].end_ms);
            }
        }
    }
    order::lemma_sorted_fixed(out, by_time());
    let again = normalized(out);
    assert forall|i: int| 0 <= i < out.len() implies again[i] == out[i] by {
        assert(out[i] == settled(s, i));
        if i + 1 < out.len() {
            assert(out[i + 1] == settled(s, i + 1));
        }
    }
    assert(again =~= out);
}

/// Which text a rendered file carries.
#[derive(Debug, Clone, Copy, PartialEq, Eq, Structural)]
pub enum Layout {
    /// Target language only.
    Translated,
    /// What was actually said, untranslated.
    Source,
    /// Target language on top, source underneath.
    Bilingual,
}

impl Default for Layout {
    fn default() -> (r: Self)
        ensures
            r == Layout::Translated,
    {
        Layout::Translated
    }
}

/// Subtitle file formats.
#[derive(Debug, Clone, Copy, PartialEq, Eq, Structural)]
pub enum Format {
    /// SubRip. Every player reads it.
    Srt,
    /// WebVTT. What a `<track>` element in a browser needs.
    Vtt,
}

impl Default for Format {
    fn default() -> (r: Self)
        ensures
            r == Format::Srt,
    {
        Format::Srt
    }
}

/// The format that a name stands for, whatever its case and the whitespace around it.
pub open spec fn format_named(value: Seq<char>) -> Option<Format> {
    let name = text::ascii_lower(text::trim(value));
    if name == "srt"@ || name == "subrip"@ {
        Some(Format::Srt)
    } else if name == "vtt"@ || name == "webvtt"@ {
        Some(Format::Vtt)
    } else {
        None
    }
}

impl Format {
    /// The extension of a file in this format.
    pub open spec fn suffix(self) -> Seq<char> {
        match self {
            Format::Srt => "srt"@,
            Format::Vtt => "vtt"@,
        }
    }

    /// The extension of a file in this format.
    #[must_use]
    pub fn extension(self) -> (r: &'static str)
        ensures
            r@ == self.suffix(),
    {
        match self {
            Format::Srt => "srt",
            Format::Vtt => "vtt",
        }
    }

    /// Reads a format name.
    #[must_use]
    pub fn parse(value: &str) -> (r: Option<Self>)
        ensures
            r == format_named(value@),
    {
        let name = text::ascii_lower_of(text::trimmed(value).as_slice());
        if text::spells(name.as_slice(), "srt") || text::spells(name.as_slice(), "subrip") {
            Some(Format::Srt)
        } else if text::spells(name.as_slice(), "vtt") || text::spells(name.as_slice(), "webvtt") {
            Some(Format::Vtt)
        } else {
            None
        }
    }

    /// The media type of a file in this format. A browser refuses a `<track>` that is
    /// served as plain text.
    #[must_use]
    pub fn content_type(self) -> (r: &'static str)
        ensures
            r@ == match self {
                Format::Srt => "application/x-subrip"@,
                Format::Vtt => "text/vtt"@,
            },
    {
        match self {
            Format::Srt => "application/x-subrip",
            Format::Vtt => "text/vtt",
        }
    }
}

/// A format is read back from its own extension.
pub proof fn format_extension_parses_back(f: Format)
    ensures
        format_named(f.suffix()) == Some(f),
        f.suffix() == match f {
            Format::Srt => "srt"@,
            Format::Vtt => "vtt"@,
        },
{
    reveal_strlit("srt");
    reveal_strlit("subrip");
    reveal_strlit("vtt");
    reveal_strlit("webvtt");
    assert(text::trim(f.suffix()) == f.suffix()) by {
        text::lemma_trim_fixed(f.suffix());
    }
    assert(text::ascii_lower(f.suffix()) =~= f.suffix());
    assert("srt"@[0] != "vtt"@[0]);
    assert("subrip"@.len() != "vtt"@.len());
}

/// The lines that a cue contributes to a file: what the layout asks for, and the source
/// text where there is no translation.
pub open spec fn body(c: CueView, layout: Layout) -> Seq<char> {
    let source = wrapped(c.text);
    match (layout, c.translated) {
        (Layout::Translated, Some(t)) => wrapped(t),
        (Layout::Bilingual, Some(t)) => wrapped(t) + seq!['\n'] + source,
        _ => source,
    }
}

/// A cue without a translation shows its source text in every layout, and a cue with one shows
/// what the layout asks for.
pub proof fn an_untranslated_cue_shows_its_source(c: CueView, layout: Layout)
    ensures
        c.translated is None ==> body(c, layout) == wrapped(c.text),
        body(c, Layout::Source) == wrapped(c.text),
        c.translated matches Some(t) ==> body(c, Layout::Translated) == wrapped(t) && body(
            c,
            Layout::Bilingual,
        ) == wrapped(t) + seq!['\n'] + wrapped(c.text),
{
}

/// `HH:MM:SS`, the separator, and the milliseconds.
pub open spec fn clock_text(ms: nat, sep: char) -> Seq<char> {
    text::padded(ms / 3_600_000, 2) + seq![':'] + text::padded(ms % 3_600_000 / 60_000, 2)
        + seq![':'] + text::padded(ms % 60_000 / 1000, 2) + seq![sep] + text::padded(ms % 1000, 3)
}

/// The times of a cue and its lines, as they stand in a file.
pub open spec fn timed_body(c: CueView, layout: Layout, sep: char) -> Seq<char> {
    clock_text(c.start_ms as nat, sep) + " --> "@ + clock_text(c.end_ms as nat, sep) + seq!['\n']
        + body(c, layout) + "\n\n"@
}

/// Whether a cue shows up in a file at all.
pub open spec fn shows(c: CueView, layout: Layout) -> bool {
    text::trim(body(c, layout)).len() > 0
}

/// How many of `cues` show up in a file.
pub open spec fn shown(cues: Seq<CueView>, layout: Layout) -> nat
    decreases cues.len(),
{
    if cues.len() == 0 {
        0
    } else if shows(cues.last(), layout) {
        shown(cues.drop_last(), layout) + 1
    } else {
        shown(cues.drop_last(), layout)
    }
}

/// The SubRip file of `cues`: those that show, numbered from one.
pub open spec fn srt_file(cues: Seq<CueView>, layout: Layout) -> Seq<char>
    decreases cues.len(),
{
    if cues.len() == 0 {
        seq![]
    } else {
        let before = srt_file(cues.drop_last(), layout);
        if shows(cues.last(), layout) {
            before + text::decimal(shown(cues, layout)) + seq!['\n'] + timed_body(
                cues.last(),
                layout,
                ',',
            )
        } else {
            before
        }
    }
}

/// The WebVTT file of `cues`: the header, then those that show.
pub open spec fn vtt_file(cues: Seq<CueView>, layout: Layout) -> Seq<char>
    decreases cues.len(),
{
    if cues.len() == 0 {
        "WEBVTT\n\n"@
    } else {
        let before = vtt_file(cues.drop_last(), layout);
        if shows(cues.last(), layout) {
            before + timed_body(cues.last(), layout, '.')
        } else {
            before
        }
    }
}

impl Cue {
    /// The lines this cue contributes to a rendered file, in `layout` order.
    pub fn rendered(&self, layout: Layout) -> (r: Vec<char>)
        ensures
            r@ == body(self@, layout),
    {
        let source = wrap(text::chars_of(&self.text).as_slice());
        match (layout, &self.translated) {
            (Layout::Translated, Some(t)) => wrap(text::chars_of(t).as_slice()),
            (Layout::Bilingual, Some(t)) => {
                let mut out = wrap(text::chars_of(t).as_slice());
                let ghost first = out@;
                out.push('\n');
                text::append(&mut out, source.as_slice());
                assert(out@ =~= first + seq!['\n'] + source@);
                out
            },
            _ => source,
        }
    }
}

/// `HH:MM:SS`, the separator, and the milliseconds. SubRip uses a comma, WebVTT a dot, and
/// a player given the wrong one shows no subtitles at all.
pub fn timestamp(ms: u64, sep: char) -> (r: String)
    ensures
        r@ == clock_text(ms as nat, sep),
{
    let mut out: Vec<char> = text::padded_of(ms / 3_600_000, 2);
    out.push(':');
    text::append(&mut out, text::padded_of(ms % 3_600_000 / 60_000, 2).as_slice());
    out.push(':');
    text::append(&mut out, text::padded_of(ms % 60_000 / 1000, 2).as_slice());
    out.push(sep);
    text::append(&mut out, text::padded_of(ms % 1000, 3).as_slice());
    assert(out@ =~= clock_text(ms as nat, sep));
    text::string_of(out.as_slice())
}

fn append_timed(out: &mut Vec<char>, cue: &Cue, lines: &[char], sep: char, Ghost(layout): Ghost<Layout>)
    requires
        lines@ == body(cue@, layout),
    ensures
        final(out)@ == old(out)@ + timed_body(cue@, layout, sep),
{
    text::append_str(out, &timestamp(cue.start_ms, sep));
    text::append_str(out, " --> ");
    text::append_str(out, &timestamp(cue.end_ms, sep));
    out.push('\n');
    text::append(out, lines);
    text::append_str(out, "\n\n");
    assert(out@ =~= old(out)@ + timed_body(cue@, layout, sep));
}

fn render_srt(cues: &[Cue], layout: Layout) -> (r: String)
    ensures
        r@ == srt_file(views(cues@), layout),
{
    let mut out: Vec<char> = Vec::new();
    let mut index: u64 = 0;
    let mut i: usize = 0;
    while i < cues.len()
        invariant
            i <= cues.len(),
            index <= i,
            index == shown(views(cues@).take(i as int), layout),
            out@ == srt_file(views(cues@).take(i as int), layout),
        decreases cues.len() - i,
    {
        assert(views(cues@).take(i + 1).drop_last() =~= views(cues@).take(i as int));
        let lines = cues[i].rendered(layout);
        if text::trim_of(lines.as_slice()).len() > 0 {
            let ghost before = out@;
            index += 1;
            text::append(&mut out, text::decimal_of(index).as_slice());
            out.push('\n');
            append_timed(&mut out, &cues[i], lines.as_slice(), ',', Ghost(layout));
            assert(out@ =~= before + text::decimal(index as nat) + seq!['\n'] + timed_body(
                cues@[i as int]@,
                layout,
                ',',
            ));
        }
        i += 1;
    }
    assert(views(cues@).take(i as int) =~= views(cues@));
    text::string_of(out.as_slice())
}

fn render_vtt(cues: &[Cue], layout: Layout) -> (r: String)
    ensures
        r@ == vtt_file(views(cues@), layout),
{
    let mut out: Vec<char> = text::chars_of("WEBVTT\n\n");
    let mut i: usize = 0;
    while i < cues.len()
        invariant
            i <= cues.len(),
            out@ == vtt_file(views(cues@).take(i as int), layout),
        decreases cues.len() - i,
    {
        assert(views(cues@).take(i + 1).drop_last() =~= views(cues@).take(i as int));
        let lines = cues[i].rendered(layout);
        if text::trim_of(lines.as_slice()).len() > 0 {
            append_timed(&mut out, &cues[i], lines.as_slice(), '.', Ghost(layout));
        }
        i += 1;
    }
    assert(views(cues@).take(i as int) =~= views(cues@));
    text::string_of(out.as_slice())
}

/// The subtitle file of `cues`.
pub open spec fn file_text(cues: Seq<CueView>, format: Format, layout: Layout) -> Seq<char> {
    match format {
        Format::Srt => srt_file(cues, layout),
        Format::Vtt => vtt_file(cues, layout),
    }
}

/// Renders `cues` as a subtitle file.
#[must_use]
pub fn render(cues: &[Cue], format: Format, layout: Layout) -> (r: String)
    ensures
        r@ == file_text(views(cues@), format, layout),
{
    match format {
        Format::Srt => render_srt(cues, layout),
        Format::Vtt => render_vtt(cues, layout),
    }
}

/// Whether the cues of a window can be placed on a timeline that ends with `u64`.
pub open spec fn fits(
    offset: int,
    segments: Seq<TranscriptSegment>,
    fallback: Seq<char>,
    duration: int,
) -> bool {
    &&& forall|i: int|
        0 <= i < segments.len() && speech(segments[i].text@).len() > 0 ==> segment_cue(
            offset,
            #[trigger] segments[i],
        ).end_ms <= u64::MAX
    &&& segments.len() == 0 && speech(fallback).len() > 0 ==> window_cue(
        offset,
        fallback,
        duration,
    ).end_ms <= u64::MAX
}

/// Whether every cue could stay on screen for its minimum time.
pub open spec fn has_room(cues: Seq<CueView>) -> bool {
    forall|i: int| 0 <= i < cues.len() ==> (#[trigger] cues[i]).start_ms + MIN_CUE_MS <= u64::MAX
}

/// Whether the cues of a window can be placed, and each of them could stay on screen for its
/// minimum time.
pub fn window_fits(
    offset_ms: u64,
    segments: &[TranscriptSegment],
    fallback_text: &str,
    window_duration_ms: u64,
) -> (r: bool)
    ensures
        r == (fits(offset_ms as int, segments@, fallback_text@, window_duration_ms as int)
            && has_room(
            window_cues(offset_ms as int, segments@, fallback_text@, window_duration_ms as int),
        )),
{
    let mut i: usize = 0;
    while i < segments.len()
        invariant
            i <= segments@.len(),
            forall|j: int|
                0 <= j < i && speech(segments@[j].text@).len() > 0 ==> segment_cue(
                    offset_ms as int,
                    #[trigger] segments@[j],
                ).end_ms <= u64::MAX,
        decreases segments@.len() - i,
    {
        let s = &segments[i];
        if !speech_of(&s.text).as_str().is_empty() {
            let floor: u128 = s.start_ms as u128 + MIN_CUE_MS as u128;
            let end: u128 = if s.end_ms as u128 > floor {
                s.end_ms as u128
            } else {
                floor
            };
            if offset_ms as u128 + end > u64::MAX as u128 {
                assert(segment_cue(offset_ms as int, segments@[i as int]).end_ms > u64::MAX);
                return false;
            }
        }
        i += 1;
    }
    if segments.len() == 0 && !speech_of(fallback_text).as_str().is_empty() {
        let length: u64 = if window_duration_ms > MIN_CUE_MS {
            window_duration_ms
        } else {
            MIN_CUE_MS
        };
        if offset_ms as u128 + length as u128 > u64::MAX as u128 {
            return false;
        }
    }
    let list = cues_from_segments(offset_ms, segments, fallback_text, window_duration_ms);
    let ghost all = views(list@);
    let mut k: usize = 0;
    while k < list.len()
        invariant
            k <= list@.len(),
            all == views(list@),
            all == window_cues(
                offset_ms as int,
                segments@,
                fallback_text@,
                window_duration_ms as int,
            ),
            forall|j: int|
                0 <= j < k ==> (#[trigger] all[j]).start_ms + MIN_CUE_MS <= u64::MAX,
        decreases list@.len() - k,
    {
        assert(all[k as int] == list@[k as int]@);
        if list[k].start_ms > u64::MAX - MIN_CUE_MS {
            return false;
        }
        k += 1;
    }
    true
}

/// Normalizing changes the end of a cue only where it must. A cue that stays long enough and
/// leaves the next one its gap keeps its end. One that flashes by gets its minimum time where
/// there is room for it. One that comes too close to the next leaves exactly the gap, where
/// there is room for that.
pub proof fn normalizing_moves_an_end_only_where_it_must(cues: Seq<CueView>)
    ensures
        forall|i: int|
            #![trigger normalized(cues)[i]]
            0 <= i < normalized(cues).len() ==> {
                let sorted = sorted_cues(spoken_cues(cues));
                let was = sorted[i];
                let is = normalized(cues)[i];
                let last = i + 1 == normalized(cues).len();
                let next = sorted[i + 1].start_ms;
                let wanted = if was.end_ms - was.start_ms < 800 {
                    was.start_ms + 800
                } else {
                    was.end_ms
                };
                &&& last || wanted + 40 <= next ==> is.end_ms == wanted
                &&& !last && wanted + 40 > next && next > was.start_ms + 40 ==> is.end_ms == next
                    - 40
                &&& !last && was.start_ms < next <= was.start_ms + 40 ==> is.end_ms == was.start_ms
                    + 1
                &&& !last && next == was.start_ms ==> is.end_ms == was.start_ms
            },
{
    lemma_by_time();
    order::lemma_sorted(spoken_cues(cues), by_time());
}

/// Normalizing drops the cues whose text is blank and no others, and puts the rest in the
/// order of their starts, those that start together in the order of their ends, and those
/// that do both together as they came.
pub proof fn normalizing_drops_only_blank_cues_and_sorts_the_rest(
    cues: Seq<CueView>,
    start: int,
    end: int,
)
    ensures
        spoken_cues(cues) == cues.filter(|c: CueView| !text::blank(c.text)),
        sorted_cues(cues).len() == cues.len(),
        sorted_cues(cues).to_multiset() == cues.to_multiset(),
        forall|i: int, j: int|
            #![trigger sorted_cues(cues)[i], sorted_cues(cues)[j]]
            0 <= i < j < cues.len() ==> {
                let a = sorted_cues(cues)[i];
                let b = sorted_cues(cues)[j];
                a.start_ms < b.start_ms || a.start_ms == b.start_ms && a.end_ms <= b.end_ms
            },
        sorted_cues(cues).filter(|c: CueView| c.start_ms == start && c.end_ms == end)
            == cues.filter(|c: CueView| c.start_ms == start && c.end_ms == end),
{
    lemma_filtered(cues);
    lemma_by_time();
    order::lemma_sorted(cues, by_time());
    let s = sorted_cues(cues);
    assert forall|i: int, j: int| #![trigger s[i], s[j]] 0 <= i < j < cues.len() implies {
        s[i].start_ms < s[j].start_ms || s[i].start_ms == s[j].start_ms && s[i].end_ms
            <= s[j].end_ms
    } by {
        assert(!by_time()(s[j], s[i]));
    }
    let alike = |c: CueView| c.start_ms == start && c.end_ms == end;
    order::sorting_keeps_equals_as_they_came(cues, by_time(), alike);
}

proof fn lemma_filtered(cues: Seq<CueView>)
    ensures
        spoken_cues(cues) == cues.filter(|c: CueView| !text::blank(c.text)),
    decreases cues.len(),
{
    reveal(Seq::filter);
    if cues.len() > 0 {
        text::lemma_trim(cues.last().text);
        lemma_filtered(cues.drop_last());
    }
}

/// A timestamp reads back: two digits or more for the hours, two for the minutes, two for the
/// seconds and three for the milliseconds, with colons between the first three and the
/// separator in front of the last, make up the time.
#[verifier::spinoff_prover]
#[verifier::rlimit(60)]
pub proof fn a_timestamp_reads_back(ms: nat, sep: char)
    ensures
        ({
            let t = clock_text(ms, sep);
            let n = t.len() as int;
            let h = t.take(n - 10);
            let m = t.subrange(n - 9, n - 7);
            let s = t.subrange(n - 6, n - 4);
            let f = t.skip(n - 3);
            &&& n >= 12
            &&& t[n - 10] == ':' && t[n - 7] == ':' && t[n - 4] == sep
            &&& text::all_digits(h) && text::all_digits(m) && text::all_digits(s)
            &&& text::all_digits(f)
            &&& h.len() > 2 ==> h[0] != '0'
            &&& text::value(m) < 60 && text::value(s) < 60
            &&& text::value(h) * 3_600_000 + text::value(m) * 60_000 + text::value(s) * 1000
                + text::value(f) == ms
        }),
{
    let a = text::padded(ms / 3_600_000, 2);
    let b = text::padded(ms % 3_600_000 / 60_000, 2);
    let c = text::padded(ms % 60_000 / 1000, 2);
    let d = text::padded(ms % 1000, 3);
    lemma_pow10_small();
    lemma_clock_sum(ms);
    text::numbers_are_written_in_decimal(ms / 3_600_000, 2);
    text::numbers_are_written_in_decimal(ms % 3_600_000 / 60_000, 2);
    text::numbers_are_written_in_decimal(ms % 60_000 / 1000, 2);
    text::numbers_are_written_in_decimal(ms % 1000, 3);
    lemma_clock_parts(a, b, c, d, sep);
    if a.len() > 2 {
        assert(a =~= text::decimal(ms / 3_600_000));
    }
}

/// The parts of a time make it up.
#[verifier::spinoff_prover]
proof fn lemma_clock_sum(ms: nat)
    ensures
        ms / 3_600_000 * 3_600_000 + ms % 3_600_000 / 60_000 * 60_000 + ms % 60_000 / 1000 * 1000
            + ms % 1000 == ms,
        ms % 3_600_000 / 60_000 < 60,
        ms % 60_000 / 1000 < 60,
        ms % 1000 < 1000,
{
    let f = ms % 1000;
    let seconds = ms / 1000;
    let s = seconds % 60;
    let minutes = seconds / 60;
    let m = minutes % 60;
    let h = minutes / 60;
    assert(ms == h * 3_600_000 + m * 60_000 + s * 1000 + f);
    assert(ms / 3_600_000 == h && ms % 3_600_000 == m * 60_000 + s * 1000 + f);
    assert(ms / 60_000 == h * 60 + m && ms % 60_000 == s * 1000 + f);
    assert((m * 60_000 + s * 1000 + f) / 60_000 == m);
    assert((s * 1000 + f) / 1000 == s);
}

proof fn lemma_pow10_small()
    ensures
        text::pow10(2) == 100,
        text::pow10(3) == 1000,
{
    reveal_with_fuel(text::pow10, 4);
}

/// Where the parts of a timestamp stand, counted from its end.
proof fn lemma_clock_parts(a: Seq<char>, b: Seq<char>, c: Seq<char>, d: Seq<char>, sep: char)
    requires
        a.len() >= 2,
        b.len() == 2,
        c.len() == 2,
        d.len() == 3,
    ensures
        ({
            let t = a + seq![':'] + b + seq![':'] + c + seq![sep] + d;
            let n = t.len() as int;
            &&& n == a.len() + 10
            &&& t[n - 10] == ':' && t[n - 7] == ':' && t[n - 4] == sep
            &&& t.take(n - 10) == a
            &&& t.subrange(n - 9, n - 7) == b
            &&& t.subrange(n - 6, n - 4) == c
            &&& t.skip(n - 3) == d
        }),
{
    let t = a + seq![':'] + b + seq![':'] + c + seq![sep] + d;
    let n = t.len() as int;
    assert(t.take(n - 10) =~= a);
    assert(t.subrange(n - 9, n - 7) =~= b);
    assert(t.subrange(n - 6, n - 4) =~= c);
    assert(t.skip(n - 3) =~= d);
}

/// Different times have different timestamps.
pub proof fn timestamps_tell_times_apart(a: nat, b: nat, sep: char)
    requires
        clock_text(a, sep) == clock_text(b, sep),
    ensures
        a == b,
{
    a_timestamp_reads_back(a, sep);
    a_timestamp_reads_back(b, sep);
}

/// A file is made cue by cue: each that shows anything adds its times and its lines behind what
/// is there, in a SubRip file under the number that counts those that show. A cue that shows
/// nothing adds nothing. An empty WebVTT file is its header.
pub proof fn a_file_grows_cue_by_cue(cues: Seq<CueView>, c: CueView, layout: Layout)
    ensures
        file_text(seq![], Format::Srt, layout) == Seq::<char>::empty(),
        file_text(seq![], Format::Vtt, layout) == "WEBVTT\n\n"@,
        text::blank(body(c, layout)) ==> forall|f: Format|
            file_text(cues.push(c), f, layout) == #[trigger] file_text(cues, f, layout),
        !text::blank(body(c, layout)) ==> {
            let n = cues.filter(|x: CueView| !text::blank(body(x, layout))).len();
            &&& file_text(cues.push(c), Format::Srt, layout) == file_text(cues, Format::Srt, layout)
                + text::decimal(n + 1) + seq!['\n'] + clock_text(c.start_ms as nat, ',') + " --> "@
                + clock_text(c.end_ms as nat, ',') + seq!['\n'] + body(c, layout) + seq!['\n', '\n']
            &&& file_text(cues.push(c), Format::Vtt, layout) == file_text(cues, Format::Vtt, layout)
                + clock_text(c.start_ms as nat, '.') + " --> "@ + clock_text(c.end_ms as nat, '.')
                + seq!['\n'] + body(c, layout) + seq!['\n', '\n']
        },
{
    let all = cues.push(c);
    assert(all.drop_last() =~= cues);
    text::lemma_trim(body(c, layout));
    lemma_shown(cues, layout);
    reveal_strlit("\n\n");
    assert("\n\n"@ =~= seq!['\n', '\n']);
    if !text::blank(body(c, layout)) {
        let n = shown(cues, layout);
        assert(shown(all, layout) == n + 1);
        assert(file_text(all, Format::Srt, layout) =~= file_text(cues, Format::Srt, layout)
            + text::decimal(n + 1) + seq!['\n'] + clock_text(c.start_ms as nat, ',') + " --> "@
            + clock_text(c.end_ms as nat, ',') + seq!['\n'] + body(c, layout) + seq!['\n', '\n']);
        assert(file_text(all, Format::Vtt, layout) =~= file_text(cues, Format::Vtt, layout)
            + clock_text(c.start_ms as nat, '.') + " --> "@ + clock_text(c.end_ms as nat, '.')
            + seq!['\n'] + body(c, layout) + seq!['\n', '\n']);
    } else {
        assert forall|f: Format| file_text(all, f, layout) == #[trigger] file_text(
            cues,
            f,
            layout,
        ) by {
            match f {
                Format::Srt => {},
                Format::Vtt => {},
            }
        }
    }
}

proof fn lemma_shown(cues: Seq<CueView>, layout: Layout)
    ensures
        shown(cues, layout) == cues.filter(|x: CueView| !text::blank(body(x, layout))).len(),
    decreases cues.len(),
{
    reveal(Seq::filter);
    if cues.len() > 0 {
        text::lemma_trim(body(cues.last(), layout));
        lemma_shown(cues.drop_last(), layout);
    }
}

/// Whether a sentence ends, and what follows begins, after the first `k` characters.
pub open spec fn sentence_over(s: Seq<char>, k: int) -> bool {
    let one = seq!['。', '？', '！'];
    let two = seq!['.', '?', '!'];
    ||| 1 <= k <= s.len() && one.contains(s[k - 1])
    ||| 2 <= k <= s.len() && two.contains(s[k - 2]) && s[k - 1] == ' '
}

/// Whether a clause ends, and what follows begins, after the first `k` characters.
pub open spec fn clause_over(s: Seq<char>, k: int) -> bool {
    let one = seq!['、', '，'];
    let two = seq![',', ';', ':'];
    ||| 1 <= k <= s.len() && one.contains(s[k - 1])
    ||| 2 <= k <= s.len() && two.contains(s[k - 2]) && s[k - 1] == ' '
}

proof fn lemma_over(s: Seq<char>, k: int)
    requires
        0 <= k <= s.len(),
    ensures
        sentence_over(s, k) == Break::Sentence.at(s, k),
        clause_over(s, k) == Break::Clause.at(s, k),
{
    let a = seq!['。', '？', '！'];
    let b = seq!['.', '?', '!'];
    let c = seq!['、', '，'];
    let d = seq![',', ';', ':'];
    assert(a[0] == '。' && a[1] == '？' && a[2] == '！');
    assert(b[0] == '.' && b[1] == '?' && b[2] == '!');
    assert(c[0] == '、' && c[1] == '，');
    assert(d[0] == ',' && d[1] == ';' && d[2] == ':');
}

proof fn lemma_last_is_last(kind: Break, s: Seq<char>, k: int)
    requires
        0 <= k,
    ensures
        kind.last(s, k) > 0 ==> kind.at(s, kind.last(s, k)),
        forall|j: int| kind.last(s, k) < j <= k ==> !#[trigger] kind.at(s, j),
    decreases k,
{
    if k > 0 && !kind.at(s, k) {
        lemma_last_is_last(kind, s, k - 1);
    }
}

/// Text is cut behind the last end of a sentence that the budget reaches, whatever mark ends
/// it; where there is none, behind the last end of a clause; where there is none, behind the
/// last space; and where there is none, at the budget.
pub proof fn text_is_cut_where_it_reads_best(s: Seq<char>, budget: nat)
    ensures
        ({
            let k = best_cut(s, budget);
            let limit = if budget < s.len() {
                budget as int
            } else {
                s.len() as int
            };
            let sentence = exists|j: int| 0 < j <= limit && sentence_over(s, j);
            let clause = exists|j: int| 0 < j <= limit && clause_over(s, j);
            let space = exists|j: int| 0 < j <= limit && #[trigger] s[j - 1] == ' ';
            &&& 0 <= k <= limit
            &&& sentence ==> sentence_over(s, k) && forall|j: int|
                k < j <= limit ==> !sentence_over(s, j)
            &&& !sentence && clause ==> clause_over(s, k) && forall|j: int|
                k < j <= limit ==> !clause_over(s, j)
            &&& !sentence && !clause && space ==> k > 0 && s[k - 1] == ' ' && forall|j: int|
                k < j <= limit ==> #[trigger] s[j - 1] != ' '
            &&& !sentence && !clause && !space ==> k == limit
        }),
{
    let limit = if budget < s.len() {
        budget as int
    } else {
        s.len() as int
    };
    lemma_best_cut(s, budget);
    lemma_last(Break::Sentence, s, limit);
    lemma_last(Break::Clause, s, limit);
    lemma_last(Break::Space, s, limit);
    lemma_last_is_last(Break::Sentence, s, limit);
    lemma_last_is_last(Break::Clause, s, limit);
    lemma_last_is_last(Break::Space, s, limit);
    let k = best_cut(s, budget);
    assert forall|j: int| 0 <= j <= limit implies sentence_over(s, j) == Break::Sentence.at(s, j)
        && clause_over(s, j) == Break::Clause.at(s, j) by {
        lemma_over(s, j);
    }
    assert forall|j: int| 0 < j <= limit implies (#[trigger] s[j - 1] == ' ') == Break::Space.at(
        s,
        j,
    ) by {}
    let sentence = Break::Sentence.last(s, limit);
    let clause = Break::Clause.last(s, limit);
    let space = Break::Space.last(s, limit);
    if exists|j: int| 0 < j <= limit && sentence_over(s, j) {
        let j = choose|j: int| 0 < j <= limit && sentence_over(s, j);
        assert(Break::Sentence.at(s, j));
        assert(sentence > 0);
        assert(Break::Sentence.at(s, sentence));
    } else {
        if sentence > 0 {
            assert(sentence_over(s, sentence));
        }
        if exists|j: int| 0 < j <= limit && clause_over(s, j) {
            let j = choose|j: int| 0 < j <= limit && clause_over(s, j);
            assert(Break::Clause.at(s, j));
        } else {
            if clause > 0 {
                assert(clause_over(s, clause));
            }
            if exists|j: int| 0 < j <= limit && #[trigger] s[j - 1] == ' ' {
                let j = choose|j: int| 0 < j <= limit && #[trigger] s[j - 1] == ' ';
                assert(Break::Space.at(s, j));
            } else if space > 0 {
                assert(s[space - 1] == ' ');
            }
        }
    }
}

/// Text that the budget holds is not cut. Of text that it does not hold, the first piece is
/// what stands in front of the best cut, and the others are those of what stands behind it.
pub proof fn text_is_split_piece_by_piece(s: Seq<char>, budget: nat)
    requires
        budget > 0,
    ensures
        ({
            let t = text::trim(s);
            let k = best_cut(t, budget);
            let pieces = chunks(t, budget);
            &&& t.len() == 0 ==> pieces.len() == 0
            &&& 0 < t.len() <= budget ==> pieces == seq![t]
            &&& t.len() > budget ==> {
                &&& pieces.len() >= 2
                &&& pieces[0] == text::trim(t.take(k))
                &&& pieces.drop_first() == chunks(text::trim(t.skip(k)), budget)
            }
        }),
{
    let t = text::trim(s);
    let k = best_cut(t, budget);
    text::lemma_trim(s);
    lemma_best_cut(t, budget);
    if t.len() > budget {
        let front = t.take(k);
        let back = t.skip(k);
        text::lemma_trim(front);
        text::lemma_trim_start(back);
        text::lemma_trim(back);
        assert(front[0] == t[0]);
        assert(back.last() == t.last());
        assert(!text::blank(front));
        assert(!text::blank(back));
        let tail = text::trim_start(back);
        assert(tail.len() > 0) by {
            if tail.len() == 0 {
                assert(back.take(back.len() as int)[back.len() - 1] == back.last());
            }
        }
        assert(tail.last() == back.last());
        text::lemma_trim_fixed(tail);
        assert(text::trim(back) == tail);
        lemma_chunks(tail, budget);
        let pieces = chunks(t, budget);
        assert(pieces == seq![text::trim(front)] + chunks(tail, budget));
        assert(pieces.drop_first() =~= chunks(tail, budget));
    }
}

/// A split cue gives each part its share of the time. A part appears when the characters in
/// front of it have had their part of the span, short by less than a millisecond for each of
/// the parts in front.
pub proof fn a_part_gets_time_for_its_text(c: CueView, i: int)
    requires
        c.start_ms < c.end_ms,
        split_cue(c).len() > 1,
        0 <= i < split_cue(c).len(),
    ensures
        ({
            let texts = cue_texts(split_cue(c));
            let before = text::join(texts.take(i), seq![]).len() as int;
            let all = text::join(texts, seq![]).len() as int;
            let waited = split_cue(c)[i].start_ms - c.start_ms;
            &&& 0 < all
            &&& waited * all <= (c.end_ms - c.start_ms) * before
            &&& (c.end_ms - c.start_ms) * before <= (waited + i) * all
        }),
{
    let parts = cue_parts(c);
    text::lemma_trim(c.text);
    lemma_chunks(text::trim(c.text), (MAX_LINE_CHARS * MAX_LINES) as nat);
    assert(cue_texts(split_cue(c)) =~= parts);
    lemma_joined_len(parts);
    lemma_joined_len(parts.take(i));
    lemma_shares(span(c), parts, i);
    lemma_shares_enough(span(c), parts, i);
    lemma_total_take(parts, i);
}

proof fn lemma_joined_len(parts: Seq<Seq<char>>)
    ensures
        text::join(parts, seq![]).len() == total_len(parts),
    decreases parts.len(),
{
    if parts.len() > 0 {
        lemma_joined_len(parts.drop_last());
        if parts.len() == 1 {
            assert(parts.drop_last() =~= seq![]);
        }
    }
}

proof fn lemma_shares_enough(span: int, parts: Seq<Seq<char>>, i: int)
    requires
        0 <= span,
        0 <= i <= parts.len(),
        parts.len() > 0,
        forall|j: int| 0 <= j < parts.len() ==> (#[trigger] parts[j]).len() > 0,
    ensures
        span * total_len(parts.take(i)) <= (shares(span, parts, i) + i) * total_len(parts),
    decreases i,
{
    lemma_total_take(parts, 0);
    let total = total_len(parts) as int;
    if i > 0 {
        lemma_shares_enough(span, parts, i - 1);
        lemma_total_take(parts, i - 1);
        let before = shares(span, parts, i - 1);
        let len = parts[i - 1].len() as int;
        let head = total_len(parts.take(i - 1)) as int;
        let share = span * len / total;
        assert(span * len <= (share + 1) * total) by (nonlinear_arith)
            requires
                share == span * len / total,
                0 < total,
        ;
        assert(span * (head + len) <= (before + share + i) * total) by (nonlinear_arith)
            requires
                span * head <= (before + (i - 1)) * total,
                span * len <= (share + 1) * total,
        ;
        assert(total_len(parts.take(i)) == head + len);
        assert(shares(span, parts, i) == before + share);
    } else {
        assert(parts.take(0) =~= seq![]);
        assert(span * 0 == 0);
        assert(0 * total == 0);
    }
}

/// The cues of some segments and then of others are those of the first and then those of the
/// others: no segment has a say in what becomes of another.
pub proof fn segments_become_cues_one_by_one(
    offset: int,
    a: Seq<TranscriptSegment>,
    b: Seq<TranscriptSegment>,
)
    ensures
        segment_cues(offset, a + b) == segment_cues(offset, a) + segment_cues(offset, b),
    decreases b.len(),
{
    if b.len() == 0 {
        assert(a + b =~= a);
        assert(segment_cues(offset, a) + segment_cues(offset, b) =~= segment_cues(offset, a));
    } else {
        let front = b.drop_last();
        segments_become_cues_one_by_one(offset, a, front);
        assert((a + b).drop_last() =~= a + front);
        assert((a + b).last() == b.last());
        assert(segment_cues(offset, a + b) =~= segment_cues(offset, a) + segment_cues(offset, b));
    }
}

/// What one segment becomes. Where nothing was said, nothing. Else its first cue appears when
/// the segment does, on the timeline of the media, and its last one leaves when the segment
/// does, or after the minimum time on screen. What two lines hold and is not too long on
/// screen becomes one cue.
pub proof fn a_segment_keeps_its_place(offset: int, segment: TranscriptSegment)
    ensures
        ({
            let said = speech(segment.text@);
            let r = segment_cues(offset, seq![segment]);
            let start = offset + segment.start_ms;
            let end = offset + if segment.end_ms - segment.start_ms > 800 {
                segment.end_ms as int
            } else {
                segment.start_ms + 800
            };
            &&& said.len() == 0 ==> r.len() == 0
            &&& said.len() > 0 ==> r.len() > 0 && r[0].start_ms == start && r.last().end_ms == end
            &&& 0 < said.len() <= 84 && end - start <= 7000 ==> r == seq![
                CueView { start_ms: start, end_ms: end, text: said, translated: None },
            ]
        }),
{
    let one = seq![segment];
    let c = segment_cue(offset, segment);
    let none = Seq::<CueView>::empty();
    assert(one.drop_last() =~= seq![]);
    assert(one.last() == segment);
    speech_keeps_every_word(segment.text@);
    assert(segment_cues(offset, seq![]) =~= none);
    if c.text.len() > 0 {
        assert(segment_cues(offset, one) =~= all_paced(split_cue(c)));
        lemma_segment_ends(c);
        if c.text.len() <= 84 && span(c) <= MAX_CUE_MS {
            lemma_whole(c);
            assert(seq![c].drop_last() =~= none);
            assert(all_paced(none) =~= none);
            assert(all_paced(seq![c]) =~= seq![c]);
        }
    }
}

proof fn lemma_segment_ends(c: CueView)
    requires
        c.start_ms < c.end_ms,
        c.text.len() > 0,
        text::tidy(c.text),
    ensures
        all_paced(split_cue(c)).len() > 0,
        all_paced(split_cue(c))[0].start_ms == c.start_ms,
        all_paced(split_cue(c)).last().end_ms == c.end_ms,
{
    lemma_split_visible(c);
    lemma_split_fits(c);
    splitting_shares_the_span(c);
    let parts = split_cue(c);
    assert forall|i: int| 0 <= i < parts.len() implies {
        &&& visible(#[trigger] parts[i])
        &&& parts[i].text.len() <= MAX_LINE_CHARS * MAX_LINES
    } by {
        assert(fits_two_lines(parts[i]));
    }
    lemma_all_paced_ends(parts);
}

/// What a window becomes. One with segments becomes theirs, whatever text came beside them. One
/// without becomes its text, from its start on, for as long as it lasts and at least for the
/// minimum time on screen, in one cue where two lines hold it.
pub proof fn a_window_without_timings_spans_itself(
    offset: int,
    segments: Seq<TranscriptSegment>,
    fallback: Seq<char>,
    duration: int,
)
    ensures
        segments.len() > 0 ==> window_cues(offset, segments, fallback, duration) == segment_cues(
            offset,
            segments,
        ),
        ({
            let said = speech(fallback);
            let r = window_cues(offset, seq![], fallback, duration);
            let end = offset + if duration > 800 {
                duration
            } else {
                800
            };
            &&& said.len() == 0 ==> r.len() == 0
            &&& said.len() > 0 ==> r.len() > 0 && r[0].start_ms == offset && r.last().end_ms == end
            &&& 0 < said.len() <= 84 ==> r == seq![
                CueView { start_ms: offset, end_ms: end, text: said, translated: None },
            ]
        }),
{
    let w = window_cue(offset, fallback, duration);
    speech_keeps_every_word(fallback);
    if w.text.len() > 0 {
        splitting_shares_the_span(w);
        if w.text.len() <= 84 {
            lemma_whole(w);
        }
    }
}

proof fn lemma_whole(c: CueView)
    requires
        0 < c.text.len() <= 84,
        text::tidy(c.text),
    ensures
        split_cue(c) == seq![c],
{
    assert(!text::white(c.text[0]) && !text::white(c.text.last()));
    text::lemma_trim_fixed(c.text);
}

proof fn lemma_all_paced_ends(cues: Seq<CueView>)
    requires
        cues.len() > 0,
        forall|i: int|
            0 <= i < cues.len() ==> visible(#[trigger] cues[i]) && cues[i].text.len()
                <= MAX_LINE_CHARS * MAX_LINES,
    ensures
        all_paced(cues).len() > 0,
        all_paced(cues)[0].start_ms == cues[0].start_ms,
        all_paced(cues).last().end_ms == cues.last().end_ms,
    decreases cues.len(),
{
    let front = cues.drop_last();
    assert(cues.last() == cues[cues.len() - 1]);
    pacing_shares_the_span(cues.last());
    if front.len() > 0 {
        assert forall|i: int| 0 <= i < front.len() implies visible(#[trigger] front[i])
            && front[i].text.len() <= MAX_LINE_CHARS * MAX_LINES by {
            assert(front[i] == cues[i]);
        }
        lemma_all_paced_ends(front);
        assert(all_paced(cues)[0] == all_paced(front)[0]);
    } else {
        assert(all_paced(cues) =~= paced(cues[0]));
    }
    assert(all_paced(cues).last() == paced(cues.last()).last());
}

/// What engines emit where nobody speaks.
pub open spec fn markers() -> Seq<Seq<char>> {
    seq![
        "[blank_audio]"@,
        "[silence]"@,
        "(silence)"@,
        "[music]"@,
        "(music)"@,
        "[applause]"@,
        "[inaudible]"@,
        "[ silence ]"@,
        "*"@,
        "."@,
        ".."@,
        "..."@,
        "…"@,
        "-"@,
    ]
}

/// Cleaning is spacing the words evenly, but for a marker, whatever its case and the whitespace
/// around it, of which nothing is left.
pub proof fn only_markers_are_cleaned_away(s: Seq<char>)
    ensures
        cleaned(s) == if markers().contains(text::ascii_lower(text::trim(s))) {
            seq![]
        } else {
            text::join(text::words(s), seq![' '])
        },
{
    let low = text::ascii_lower(text::trim(s));
    let all = markers();
    text::squeezing_spaces_the_words(s);
    if noise(low) {
        let i: int = if low == all[0] {
            0
        } else if low == all[1] {
            1
        } else if low == all[2] {
            2
        } else if low == all[3] {
            3
        } else if low == all[4] {
            4
        } else if low == all[5] {
            5
        } else if low == all[6] {
            6
        } else if low == all[7] {
            7
        } else if low == all[8] {
            8
        } else if low == all[9] {
            9
        } else if low == all[10] {
            10
        } else if low == all[11] {
            11
        } else if low == all[12] {
            12
        } else {
            13
        };
        assert(all[i] == low);
    } else if all.contains(low) {
        let i = choose|i: int| 0 <= i < all.len() && all[i] == low;
        assert(false);
    }
}

/// Whatever has a letter or a digit in it, or a character of no script that punctuation was
/// listed for, is said, unless it is a marker. What has nothing but ASCII punctuation in it
/// is not.
pub proof fn letters_and_digits_are_said(s: Seq<char>, i: int)
    requires
        0 <= i < s.len(),
        !text::white(s[i]),
        !markers().contains(text::ascii_lower(text::trim(s))),
    ensures
        'a' <= s[i] <= 'z' || 'A' <= s[i] <= 'Z' || '0' <= s[i] <= '9' || 'À' <= s[i] <= 'ʯ'
            || 'Α' <= s[i] <= 'ӿ' || 'ぁ' <= s[i] <= 'ゖ' || '一' <= s[i] <= '鿿' || '가' <= s[i]
            <= '힣' ==> speech(s) == text::join(text::words(s), seq![' ']) && speech(s).len() > 0,
        (forall|j: int|
            0 <= j < s.len() ==> text::white(#[trigger] s[j]) || ('!' <= s[j] <= '~' && !('a'
                <= s[j] <= 'z') && !('A' <= s[j] <= 'Z') && !('0' <= s[j] <= '9')))
            ==> speech(s).len() == 0,
{
    only_markers_are_cleaned_away(s);
    text::squeezing_spaces_the_words(s);
    text::lemma_squeeze(s);
    let t = cleaned(s);
    if !punctuation(s[i]) {
        lemma_squeeze_holds(s, i);
        let k = choose|k: int| 0 <= k < t.len() && t[k] == s[i];
        assert(!punctuation(t[k]) && t[k] != ' ');
    }
    if forall|j: int|
        0 <= j < s.len() ==> text::white(#[trigger] s[j]) || ('!' <= s[j] <= '~' && !('a' <= s[j]
            <= 'z') && !('A' <= s[j] <= 'Z') && !('0' <= s[j] <= '9')) {
        assert forall|k: int| 0 <= k < t.len() implies punctuation(#[trigger] t[k]) || t[k] == ' ' by {
            if t[k] != ' ' {
                lemma_squeeze_from(s, k);
            }
        }
    }
}

proof fn lemma_squeeze_holds(s: Seq<char>, i: int)
    requires
        0 <= i < s.len(),
        !text::white(s[i]),
    ensures
        exists|k: int| 0 <= k < text::squeeze(s).len() && text::squeeze(s)[k] == s[i],
    decreases s.len(),
{
    let all = text::squeeze(s);
    if i == s.len() - 1 {
        assert(all[all.len() - 1] == s[i]);
    } else {
        let front = s.drop_last();
        lemma_squeeze_holds(front, i);
        let k = choose|k: int| 0 <= k < text::squeeze(front).len() && text::squeeze(front)[k] == s[i];
        assert(all[k] == s[i]);
    }
}

proof fn lemma_squeeze_from(s: Seq<char>, k: int)
    requires
        0 <= k < text::squeeze(s).len(),
        text::squeeze(s)[k] != ' ',
    ensures
        exists|i: int| 0 <= i < s.len() && !text::white(s[i]) && s[i] == text::squeeze(s)[k],
    decreases s.len(),
{
    let front = s.drop_last();
    let before = text::squeeze(front);
    if k < before.len() {
        assert(text::squeeze(s)[k] == before[k]);
        lemma_squeeze_from(front, k);
        let i = choose|i: int| 0 <= i < front.len() && !text::white(front[i]) && front[i] == before[k];
        assert(s[i] == front[i]);
    } else {
        assert(s[s.len() - 1] == text::squeeze(s)[k]);
    }
}

/// What a line holds stays on one line. What it does not hold is shown as its pieces where there
/// are two. Where there are more, the first piece stands on the first line and the others, with
/// spaces between them, on the second; unless that is too long and a space splits the text into
/// two lines that are not, the last such space doing it.
pub proof fn wrapping_follows_the_pieces(s: Seq<char>)
    ensures
        ({
            let t = text::trim(s);
            let pieces = chunks(t, 42);
            let tail = text::join(pieces.drop_first(), seq![' ']);
            let splits = |k: int|
                0 <= k < t.len() && t[k] == ' ' && text::trim(t.take(k)).len() <= 42 && text::trim(
                    t.skip(k),
                ).len() <= 42;
            &&& t.len() <= 42 ==> wrapped(s) == t
            &&& t.len() > 42 && pieces.len() == 2 ==> wrapped(s) == pieces[0] + seq!['\n']
                + pieces[1]
            &&& t.len() > 42 && pieces.len() > 2 && (tail.len() <= 42 || forall|k: int|
                !#[trigger] splits(k)) ==> wrapped(s) == pieces[0] + seq!['\n'] + tail
            &&& t.len() > 42 && pieces.len() > 2 && tail.len() > 42 ==> forall|k: int|
                (#[trigger] splits(k) && forall|j: int| k < j ==> !#[trigger] splits(j)) ==> wrapped(
                    s,
                ) == text::trim(t.take(k)) + seq!['\n'] + text::trim(t.skip(k))
        }),
{
    let t = text::trim(s);
    let pieces = chunks(t, 42);
    let n = t.len() as int;
    lemma_last_fold(t, n);
    assert(pieces.skip(1) =~= pieces.drop_first());
    let splits = |k: int|
        0 <= k < t.len() && t[k] == ' ' && text::trim(t.take(k)).len() <= 42 && text::trim(
            t.skip(k),
        ).len() <= 42;
    assert forall|k: int| #[trigger] splits(k) == folds_at(t, k) by {}
    let last = last_fold(t, n);
    if last >= 0 {
        assert(splits(last));
    }
    if t.len() > 42 && pieces.len() == 2 {
        let front = pieces.drop_last();
        assert(front =~= seq![pieces[0]]);
        assert(front.drop_last() =~= seq![]);
        assert(text::join(front, seq!['\n']) =~= pieces[0]);
        assert(text::join(pieces, seq!['\n']) =~= pieces[0] + seq!['\n'] + pieces[1]);
    }
    assert forall|k: int| (#[trigger] splits(k) && forall|j: int| k < j ==> !#[trigger] splits(j))
        implies k == last by {
        assert(folds_at(t, k));
        if k < last {
            assert(splits(last));
        }
    }
}

/// A name stands for a format if it spells its extension or its full name, whatever its case
/// and the whitespace around it, and for none else.
pub proof fn formats_have_two_names(value: Seq<char>)
    ensures
        format_named(value) == Some(Format::Srt) <==> seq!["srt"@, "subrip"@].contains(
            text::ascii_lower(text::trim(value)),
        ),
        format_named(value) == Some(Format::Vtt) <==> seq!["vtt"@, "webvtt"@].contains(
            text::ascii_lower(text::trim(value)),
        ),
{
    let name = text::ascii_lower(text::trim(value));
    let a = seq!["srt"@, "subrip"@];
    let b = seq!["vtt"@, "webvtt"@];
    reveal_strlit("srt");
    reveal_strlit("subrip");
    reveal_strlit("vtt");
    reveal_strlit("webvtt");
    assert(a[0] == "srt"@ && a[1] == "subrip"@ && b[0] == "vtt"@ && b[1] == "webvtt"@);
    assert("srt"@[0] != "vtt"@[0]);
    assert("subrip"@[0] != "webvtt"@[0]);
}

/// Whether each half of `c`, cut after `k` characters, has the minimum time on screen when the
/// halves share the span by their text.
pub open spec fn leaves_time(c: CueView, k: int) -> bool {
    let head = text::trim(c.text.take(k)).len() as int;
    let all = head + text::trim(c.text.skip(k)).len();
    let span = c.end_ms - c.start_ms;
    &&& span * head >= 800 * all
    &&& span * head < (span - 799) * all
}

/// Whether `k` is nearer to the middle of `n` characters than `j`, or as near and not behind it.
pub open spec fn nearer(n: int, k: int, j: int) -> bool {
    let from_k = if k < n / 2 {
        n / 2 - k
    } else {
        k - n / 2
    };
    let from_j = if j < n / 2 {
        n / 2 - j
    } else {
        j - n / 2
    };
    from_k < from_j || from_k == from_j && k <= j
}

proof fn lemma_nearest_is_nearest(n: int, d: int, p: spec_fn(int) -> bool, j: int)
    requires
        0 <= n,
        0 <= d,
        forall|k: int| #[trigger] p(k) ==> 0 < k < n,
        forall|k: int| #[trigger] p(k) ==> k <= n / 2 - d || n / 2 + d <= k,
        p(j),
    ensures
        nearest(n, d, p) > 0,
        p(nearest(n, d, p)),
        nearer(n, nearest(n, d, p), j),
    decreases n - d,
{
    let mid = n / 2;
    assert(0 < j < n);
    assert(j <= mid - d || mid + d <= j);
    if d < n && !(0 < mid - d && p(mid - d)) && !(mid + d < n && p(mid + d)) {
        assert forall|k: int| #[trigger] p(k) implies k <= mid - (d + 1) || mid + (d + 1) <= k by {
            if k == mid - d || k == mid + d {
                assert(0 < k < n);
            }
        }
        lemma_nearest_is_nearest(n, d + 1, p, j);
    }
}

proof fn lemma_leaves_time(c: CueView, k: int)
    requires
        visible(c),
        0 < k < c.text.len(),
    ensures
        leaves_time(c, k) <==> turn_ms(c, k) - c.start_ms >= 800 && c.end_ms - turn_ms(c, k) >= 800,
        ({
            let head = text::trim(c.text.take(k)).len() as int;
            let all = head + text::trim(c.text.skip(k)).len();
            let span = c.end_ms - c.start_ms;
            let waited = turn_ms(c, k) - c.start_ms;
            &&& head > 0
            &&& waited * all <= span * head
            &&& span * head < (waited + 1) * all
        }),
{
    let head = text::trim(c.text.take(k)).len() as int;
    let all = head + text::trim(c.text.skip(k)).len() as int;
    text::lemma_trim(c.text);
    text::lemma_trim(c.text.take(k));
    assert(c.text.take(k)[0] == c.text[0]);
    assert(!text::blank(c.text.take(k)));
    let s = c.end_ms - c.start_ms;
    let a = s * head;
    let q = a / all;
    assert(turn_ms(c, k) == c.start_ms + q);
    assert(0 <= a) by (nonlinear_arith)
        requires
            a == s * head,
            s > 0,
            head > 0,
    ;
    assert(q * all <= a && a < (q + 1) * all) by (nonlinear_arith)
        requires
            q == a / all,
            all > 0,
            a >= 0,
    ;
    assert(q >= 800 <==> a >= 800 * all) by (nonlinear_arith)
        requires
            q * all <= a,
            a < (q + 1) * all,
            all > 0,
    ;
    assert(s - q >= 800 <==> a < (s - 799) * all) by (nonlinear_arith)
        requires
            q * all <= a,
            a < (q + 1) * all,
            all > 0,
    ;
}

/// A cue that stays too long is cut in two, and so are its halves as long as they do. The halves
/// are the text in front of the cut and that behind it; they follow one another without a gap
/// and share the span by their length, the second appearing at the last whole millisecond at
/// which the first has had no more than its part.
pub proof fn halves_share_the_span_by_their_text(c: CueView)
    requires
        visible(c),
    ensures
        c.end_ms - c.start_ms <= 7000 ==> paced(c) == seq![c],
        c.end_ms - c.start_ms > 7000 && turn(c) == 0 ==> paced(c) == seq![c],
        c.end_ms - c.start_ms > 7000 && turn(c) > 0 ==> {
            let k = turn(c);
            let head = text::trim(c.text.take(k));
            let tail = text::trim(c.text.skip(k));
            let span = c.end_ms - c.start_ms;
            let waited = turn_ms(c, k) - c.start_ms;
            &&& 0 < k < c.text.len()
            &&& waited * (head.len() + tail.len()) <= span * head.len()
            &&& span * head.len() < (waited + 1) * (head.len() + tail.len())
            &&& paced(c) == paced(
                CueView {
                    start_ms: c.start_ms,
                    end_ms: c.start_ms + waited,
                    text: head,
                    translated: None,
                },
            ) + paced(
                CueView {
                    start_ms: c.start_ms + waited,
                    end_ms: c.end_ms,
                    text: tail,
                    translated: None,
                },
            )
        },
{
    lemma_turn(c);
    let k = turn(c);
    if c.end_ms - c.start_ms > 7000 && k > 0 {
        lemma_leaves_time(c, k);
    }
}

/// A cue that stays too long is cut near the middle of its text: behind the end of a sentence
/// where one leaves both halves time to be read, else behind that of a clause, else behind a
/// space, and where none of these does, at whatever break there is. Of several such places it
/// is the nearest to the middle, and of two that are as near the one in front.
pub proof fn a_long_cue_is_cut_near_its_middle(c: CueView, j: int)
    requires
        visible(c),
        0 < j < c.text.len(),
    ensures
        ({
            let t = c.text;
            let n = t.len() as int;
            let k = turn(c);
            let sentence = exists|i: int|
                0 < i < n && sentence_over(t, i) && #[trigger] leaves_time(c, i);
            let clause = exists|i: int|
                0 < i < n && clause_over(t, i) && #[trigger] leaves_time(c, i);
            let space = exists|i: int|
                0 < i < n && t[i - 1] == ' ' && #[trigger] leaves_time(c, i);
            &&& sentence_over(t, j) && leaves_time(c, j) ==> sentence_over(t, k) && leaves_time(
                c,
                k,
            ) && nearer(n, k, j)
            &&& !sentence && clause_over(t, j) && leaves_time(c, j) ==> clause_over(t, k)
                && leaves_time(c, k) && nearer(n, k, j)
            &&& !sentence && !clause && t[j - 1] == ' ' && leaves_time(c, j) ==> t[k - 1] == ' '
                && leaves_time(c, k) && nearer(n, k, j)
            &&& !sentence && !clause && !space && (sentence_over(t, j) || clause_over(t, j) || t[j
                - 1] == ' ') ==> (sentence_over(t, k) || clause_over(t, k) || t[k - 1] == ' ')
                && nearer(n, k, j)
        }),
{
    let t = c.text;
    let n = t.len() as int;
    let a = turns(c, Some(Break::Sentence));
    let b = turns(c, Some(Break::Clause));
    let s = turns(c, Some(Break::Space));
    let any = turns(c, None);
    assert forall|i: int| 0 < i < n implies {
        &&& a(i) == (sentence_over(t, i) && #[trigger] leaves_time(c, i))
        &&& b(i) == (clause_over(t, i) && leaves_time(c, i))
        &&& s(i) == (t[i - 1] == ' ' && leaves_time(c, i))
        &&& any(i) == (sentence_over(t, i) || clause_over(t, i) || t[i - 1] == ' ')
    } by {
        lemma_over(t, i);
        lemma_leaves_time(c, i);
    }
    lemma_nearest(n, 0, a);
    lemma_nearest(n, 0, b);
    lemma_nearest(n, 0, s);
    lemma_nearest(n, 0, any);
    assert(leaves_time(c, j) || !leaves_time(c, j));
    if a(j) {
        lemma_nearest_is_nearest(n, 0, a, j);
        assert(leaves_time(c, nearest(n, 0, a)));
    }
    if b(j) {
        lemma_nearest_is_nearest(n, 0, b, j);
        assert(leaves_time(c, nearest(n, 0, b)));
    }
    if s(j) {
        lemma_nearest_is_nearest(n, 0, s, j);
        assert(leaves_time(c, nearest(n, 0, s)));
    }
    if any(j) {
        lemma_nearest_is_nearest(n, 0, any, j);
        let k = nearest(n, 0, any);
        assert(leaves_time(c, k) || !leaves_time(c, k));
    }
    let x = nearest(n, 0, a);
    let y = nearest(n, 0, b);
    let z = nearest(n, 0, s);
    if x > 0 {
        assert(a(x));
        assert(leaves_time(c, x));
    }
    if y > 0 {
        assert(b(y));
        assert(leaves_time(c, y));
    }
    if z > 0 {
        assert(s(z));
        assert(leaves_time(c, z));
    }
}

/// What counts as punctuation: the marks of ASCII, those of Latin, Arabic and Devanagari text, the
/// general ones from the hyphens to the primes and quotes and on to the dot marks, and those of
/// Chinese and Japanese text in all their widths. No letter, digit or symbol of another kind does.
pub proof fn marks_alone_are_not_said(c: char, s: Seq<char>)
    ensures
        punctuation(c) <==> {
            ||| '!' <= c <= '/'
            ||| ':' <= c <= '@'
            ||| '[' <= c <= '`'
            ||| '{' <= c <= '~'
            ||| seq!['¡', '§', '«', '¶', '·', '»', '¿', '،', '؛', '؟', '۔', '।', '॥', '〰', '・'].contains(
                c,
            )
            ||| '\u{2010}' <= c <= '\u{2027}'
            ||| '\u{2030}' <= c <= '\u{205e}'
            ||| '、' <= c <= '〃'
            ||| '〈' <= c <= '】'
            ||| '〔' <= c <= '〟'
            ||| '\u{fe30}' <= c <= '\u{fe4f}'
            ||| '！' <= c <= '／'
            ||| '：' <= c <= '＠'
            ||| '［' <= c <= '｀'
            ||| '｛' <= c <= '･'
        },
        (forall|i: int| 0 <= i < s.len() ==> text::white(#[trigger] s[i]) || punctuation(s[i]))
            ==> speech(s).len() == 0,
{
    let listed = seq![
        '¡',
        '§',
        '«',
        '¶',
        '·',
        '»',
        '¿',
        '،',
        '؛',
        '؟',
        '۔',
        '।',
        '॥',
        '〰',
        '・',
    ];
    assert(listed[0] == '¡' && listed[1] == '§' && listed[2] == '«' && listed[3] == '¶');
    assert(listed[4] == '·' && listed[5] == '»' && listed[6] == '¿' && listed[7] == '،');
    assert(listed[8] == '؛' && listed[9] == '؟' && listed[10] == '۔' && listed[11] == '।');
    assert(listed[12] == '॥' && listed[13] == '〰' && listed[14] == '・');
    if forall|i: int| 0 <= i < s.len() ==> text::white(#[trigger] s[i]) || punctuation(s[i]) {
        lemma_squeezed_marks(s);
    }
}

proof fn lemma_squeezed_marks(s: Seq<char>)
    requires
        forall|i: int| 0 <= i < s.len() ==> text::white(#[trigger] s[i]) || punctuation(s[i]),
    ensures
        only_punctuation(text::squeeze(s)),
    decreases s.len(),
{
    if s.len() > 0 {
        let front = s.drop_last();
        assert forall|i: int| 0 <= i < front.len() implies text::white(#[trigger] front[i])
            || punctuation(front[i]) by {
            assert(front[i] == s[i]);
        }
        lemma_squeezed_marks(front);
        assert(s.last() == s[s.len() - 1]);
    }
}

} // verus!
