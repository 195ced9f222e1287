//! The translation pass: cue text in the spoken language to cue text in the target language.
//!
//! The model never sees a time. Cues go out as a numbered list of text and come back as a
//! numbered list of text; the times stay here.
//!
//! A reply is matched by number, not by position. A model that merges two short lines, or
//! splits a long one, would otherwise shift every cue after it. A cue whose number did not
//! come back is asked for alone, and one that still fails keeps its source text.

use crate::cues;
use crate::cues::Cue;
use crate::cues::CueView;
use crate::json;
use crate::languages::Language;
use crate::store;
use crate::text;
use std::collections::HashMap;
use vstd::prelude::*;
use vstd::slice::slice_subrange;
use vstd::slice::slice_to_vec;

verus! {

broadcast use vstd::std_specs::hash::group_hash_axioms;

/// How many cues go into one request.
pub const BATCH: usize = 25;

/// Stands between the number of a cue and its text. It never appears in dialogue, so a line
/// that starts with a number of its own is not mistaken for a numbered one.
pub const MARKER: char = '⟩';

/// The local gateway.
pub const DEFAULT_GATEWAY_URL: &'static str = "http://127.0.0.1:7981";

/// The local model.
pub const DEFAULT_MODEL: &'static str = "gemma-4-E2B-it-Q4_K_M";

/// What the system prompt says before it names the language.
pub const PROMPT_HEAD: &'static str = "You translate film and video subtitles into ";

/// What the system prompt says after it has named the language. It is explicit about what
/// breaks a subtitle file: dropping or merging lines, and translating the numbers.
pub const PROMPT_TAIL: &'static str = ").\nYou are given numbered subtitle lines, one per line, in the form `N⟩ text`.\nRules:\n- Reply with exactly one line per input line, in the same `N⟩ text` form, using the SAME numbers you were given.\n- Never merge two input lines into one, never split one into two, never omit one, never add one.\n- Translate only the text after the marker. Keep proper nouns, numbers and on-screen names as they are.\n- These lines are consecutive dialogue from one video, so a line may be a sentence fragment: translate it as a fragment, do not complete it.\n- Match the register of the original — subtitles are spoken language, not prose.\n- Output nothing but the numbered lines: no preamble, no notes, no code fences.";

/// The system prompt for a target language.
pub fn system_prompt(target: &Language) -> (r: String)
    ensures
        r@ == PROMPT_HEAD@ + target.name@ + " ("@ + target.native@ + PROMPT_TAIL@,
{
    let mut out = text::chars_of(PROMPT_HEAD);
    text::append_str(&mut out, target.name);
    text::append_str(&mut out, " (");
    text::append_str(&mut out, target.native);
    text::append_str(&mut out, PROMPT_TAIL);
    text::string_of(out.as_slice())
}

/// `s` on one line.
pub open spec fn flat(s: Seq<char>) -> Seq<char> {
    s.map_values(
        |c: char|
            if c == '\n' {
                ' '
            } else {
                c
            },
    )
}

fn flat_of(cs: &[char]) -> (r: Vec<char>)
    ensures
        r@ == flat(cs@),
{
    let mut out: Vec<char> = Vec::new();
    let mut i: usize = 0;
    while i < cs.len()
        invariant
            i <= cs@.len(),
            out@ == flat(cs@.take(i as int)),
        decreases cs@.len() - i,
    {
        let c = cs[i];
        out.push(
            if c == '\n' {
                ' '
            } else {
                c
            },
        );
        i += 1;
        assert(out@ =~= flat(cs@.take(i as int)));
    }
    assert(cs@.take(i as int) =~= cs@);
    out
}

/// A numbered line: the number, the marker, a space, the text.
pub open spec fn numbered(n: nat, s: Seq<char>) -> Seq<char> {
    text::decimal(n) + seq![MARKER, ' '] + s
}

fn numbered_of(n: usize, s: &[char]) -> (r: Vec<char>)
    ensures
        r@ == numbered(n as nat, s@),
{
    let mut out = text::decimal_of(n as u64);
    out.push(MARKER);
    out.push(' ');
    text::append(&mut out, s);
    assert(out@ =~= numbered(n as nat, s@));
    out
}

/// The lines of a request for `cues`, numbered from `base + 1`, one line for each cue.
pub open spec fn batch_lines(cues: Seq<CueView>, base: nat) -> Seq<Seq<char>> {
    Seq::new(cues.len(), |i: int| numbered((base + i + 1) as nat, flat(cues[i].text)))
}

/// A request for `cues`: their lines, numbered from `base + 1`.
pub fn render_batch(list: &[Cue], base: usize) -> (r: String)
    requires
        base + list@.len() <= usize::MAX,
    ensures
        r@ == text::join(batch_lines(cues::views(list@), base as nat), seq!['\n']),
{
    let mut lines: Vec<Vec<char>> = Vec::new();
    let mut i: usize = 0;
    while i < list.len()
        invariant
            i <= list@.len(),
            base + list@.len() <= usize::MAX,
            text::texts(lines@) == batch_lines(cues::views(list@), base as nat).take(i as int),
        decreases list@.len() - i,
    {
        let one = flat_of(text::chars_of(&list[i].text).as_slice());
        let line = numbered_of(base + i + 1, one.as_slice());
        let ghost before = text::texts(lines@);
        lines.push(line);
        i += 1;
        let ghost all = batch_lines(cues::views(list@), base as nat);
        assert(text::texts(lines@) =~= before.push(all[i - 1]));
        assert(all.take(i as int) =~= all.take(i - 1).push(all[i - 1]));
    }
    let ghost all = batch_lines(cues::views(list@), base as nat);
    assert(all.take(i as int) =~= all);
    let joined = text::join_of(lines.as_slice(), '\n');
    text::string_of(joined.as_slice())
}

/// Whether `c` is one of the bullets that models put in front of a list.
pub open spec fn bullet(c: char) -> bool {
    c == '-' || c == '*' || c == '•'
}

/// `s` without the bullets in front.
pub open spec fn unbulleted(s: Seq<char>) -> Seq<char>
    decreases s.len(),
{
    if s.len() > 0 && bullet(s[0]) {
        unbulleted(s.drop_first())
    } else {
        s
    }
}

fn unbulleted_of(cs: &[char]) -> (r: &[char])
    ensures
        r@ == unbulleted(cs@),
{
    let mut k: usize = 0;
    assert(cs@.skip(0) =~= cs@);
    while k < cs.len() && (cs[k] == '-' || cs[k] == '*' || cs[k] == '•')
        invariant
            k <= cs@.len(),
            unbulleted(cs@) == unbulleted(cs@.skip(k as int)),
        decreases cs@.len() - k,
    {
        assert(cs@.skip(k as int).drop_first() =~= cs@.skip(k + 1));
        k += 1;
    }
    assert(cs@.skip(k as int) =~= cs@.subrange(k as int, cs@.len() as int));
    slice_subrange(cs, k, cs.len())
}

/// The number that stands in front of a marker, past whitespace and bullets.
pub open spec fn index_in(head: Seq<char>) -> Option<nat> {
    text::number(text::trim(unbulleted(text::trim(head))), usize::MAX as nat)
}

/// A line of a reply: its number, and what stands behind the marker. Nothing where there is
/// no marker, or no number in front of it.
pub open spec fn line_entry(line: Seq<char>) -> Option<(usize, Seq<char>)> {
    let s = text::trim(line);
    let k = text::first_index(s, MARKER);
    if k < s.len() {
        match index_in(s.take(k)) {
            Some(n) => Some((n as usize, text::trim(s.skip(k + 1)))),
            None => None,
        }
    } else {
        None
    }
}

fn line_entry_of(line: &[char]) -> (r: Option<(usize, Vec<char>)>)
    ensures
        match r {
            Some((n, t)) => line_entry(line@) == Some((n, t@)),
            None => line_entry(line@) is None,
        },
{
    let s = text::trim_of(line);
    let k: usize = text::first_index_of(s, MARKER);
    if k >= s.len() {
        return None;
    }
    assert(s@.take(k as int) =~= s@.subrange(0, k as int));
    assert(s@.skip(k + 1) =~= s@.subrange(k + 1, s@.len() as int));
    let head = text::trim_of(slice_subrange(s, 0, k));
    match text::number_of(text::trim_of(unbulleted_of(head))) {
        Some(n) => Some((n, slice_to_vec(text::trim_of(slice_subrange(s, k + 1, s.len()))))),
        None => None,
    }
}

/// What the lines of a reply say, by number. Lines without a number are passed over, which is
/// what makes a chatty preamble harmless, and so are those with nothing behind the marker.
pub open spec fn entries(lines: Seq<Seq<char>>) -> Map<usize, Seq<char>>
    decreases lines.len(),
{
    if lines.len() == 0 {
        Map::empty()
    } else {
        let before = entries(lines.drop_last());
        match line_entry(lines.last()) {
            Some((n, t)) if t.len() > 0 => before.insert(n, t),
            _ => before,
        }
    }
}

/// The texts of a map of strings.
pub open spec fn map_texts(m: Map<usize, String>) -> Map<usize, Seq<char>> {
    m.map_values(|s: String| s@)
}

/// Reads `N⟩ text` lines back into texts by number.
pub fn parse_reply(reply: &str) -> (r: HashMap<usize, String>)
    ensures
        map_texts(r@) == entries(text::lines(reply@)),
{
    let mut out: HashMap<usize, String> = HashMap::new();
    let lines = text::lines_of(text::chars_of(reply).as_slice());
    let ghost all = text::lines(reply@);
    let mut i: usize = 0;
    assert(map_texts(out@) =~= Map::empty());
    while i < lines.len()
        invariant
            i <= lines@.len(),
            text::texts(lines@) == all,
            map_texts(out@) == entries(all.take(i as int)),
        decreases lines@.len() - i,
    {
        assert(all.take(i + 1).drop_last() =~= all.take(i as int));
        assert(all[i as int] == lines@[i as int]@);
        let ghost before = map_texts(out@);
        if let Some((n, t)) = line_entry_of(lines[i].as_slice()) {
            if t.len() > 0 {
                out.insert(n, text::string_of(t.as_slice()));
                assert(map_texts(out@) =~= before.insert(n, t@));
            }
        }
        i += 1;
    }
    assert(all.take(i as int) =~= all);
    out
}

/// Whether some line of a reply carries a number.
pub open spec fn carries_numbers(lines: Seq<Seq<char>>) -> bool {
    exists|i: int| 0 <= i < lines.len() && line_entry(#[trigger] lines[i]) is Some
}

/// Whether a line, once trimmed, opens or closes a block of code.
pub open spec fn fence(s: Seq<char>) -> bool {
    s.len() >= 3 && s[0] == '`' && s[1] == '`' && s[2] == '`'
}

/// The first line that says something and is no code fence, trimmed.
pub open spec fn first_real_line(lines: Seq<Seq<char>>) -> Option<Seq<char>>
    decreases lines.len(),
{
    if lines.len() == 0 {
        None
    } else {
        let s = text::trim(lines[0]);
        if s.len() > 0 && !fence(s) {
            Some(s)
        } else {
            first_real_line(lines.drop_first())
        }
    }
}

/// What a reply to a lone line says when the model dropped the numbering.
pub open spec fn unnumbered(reply: Seq<char>) -> Option<Seq<char>> {
    if carries_numbers(text::lines(reply)) {
        None
    } else {
        first_real_line(text::lines(reply))
    }
}

/// The escape hatch for a lone line: the first real line of a reply that carries no numbering
/// at all. With a single line asked for, there is no doubt which one it answers.
pub fn single_line_fallback(reply: &str) -> (r: Option<String>)
    ensures
        text::opt(r) == unnumbered(reply@),
{
    let lines = text::lines_of(text::chars_of(reply).as_slice());
    let ghost all = text::lines(reply@);
    let mut i: usize = 0;
    while i < lines.len()
        invariant
            i <= lines@.len(),
            text::texts(lines@) == all,
            all == text::lines(reply@),
            forall|j: int| 0 <= j < i ==> line_entry(#[trigger] all[j]) is None,
        decreases lines@.len() - i,
    {
        assert(all[i as int] == lines@[i as int]@);
        if line_entry_of(lines[i].as_slice()).is_some() {
            return None;
        }
        i += 1;
    }
    let mut k: usize = 0;
    assert(all.skip(0) =~= all);
    while k < lines.len()
        invariant
            k <= lines@.len(),
            text::texts(lines@) == all,
            all == text::lines(reply@),
            !carries_numbers(all),
            first_real_line(all) == first_real_line(all.skip(k as int)),
        decreases lines@.len() - k,
    {
        assert(all[k as int] == lines@[k as int]@);
        assert(all.skip(k as int).drop_first() =~= all.skip(k + 1));
        let s = text::trim_of(lines[k].as_slice());
        if s.len() > 0 && !(s.len() >= 3 && s[0] == '`' && s[1] == '`' && s[2] == '`') {
            return Some(text::string_of(s));
        }
        k += 1;
    }
    None
}

/// What a reply to the lone line `n` gives for it.
pub open spec fn lone_answer(reply: Seq<char>, n: usize) -> Option<Seq<char>> {
    let got = entries(text::lines(reply));
    if got.contains_key(n) {
        Some(got[n])
    } else {
        unnumbered(reply)
    }
}

fn lone_answer_of(reply: &str, n: usize) -> (r: Option<String>)
    ensures
        text::opt(r) == lone_answer(reply@, n),
{
    let got = parse_reply(reply);
    match got.get(&n) {
        Some(t) => {
            assert(map_texts(got@)[n] == got@[n]@);
            Some(t.clone())
        },
        None => single_line_fallback(reply),
    }
}

/// Where a translation is.
#[derive(Debug, Clone, Copy, PartialEq, Eq, Structural)]
pub enum Phase {
    /// The whole batch is asked for.
    Batch,
    /// The cue this far into the batch is asked for alone.
    Single(usize),
    /// Every batch is done.
    Finished,
}

/// A translation under way: the cues, the batch it is at, and what the model has said about
/// that batch.
#[derive(Debug)]
pub struct Session {
    pub cues: Vec<Cue>,
    /// How many cues are in batches that are done.
    pub base: usize,
    pub phase: Phase,
    /// What the model said about the batch under way, by number.
    pub got: HashMap<usize, String>,
    /// How many cues were translated.
    pub translated: usize,
}

/// A translation under way, as a mathematical value.
#[verifier::ext_equal]
pub struct SessionView {
    pub cues: Seq<CueView>,
    pub base: int,
    pub phase: Phase,
    pub got: Map<usize, Seq<char>>,
    pub translated: int,
}

impl View for Session {
    type V = SessionView;

    open spec fn view(&self) -> SessionView {
        SessionView {
            cues: cues::views(self.cues@),
            base: self.base as int,
            phase: self.phase,
            got: map_texts(self.got@),
            translated: self.translated as int,
        }
    }
}

/// How many cues the batch under way has.
pub open spec fn batch_len(v: SessionView) -> int {
    if v.cues.len() - v.base < BATCH {
        v.cues.len() - v.base
    } else {
        BATCH as int
    }
}

/// The session is at a batch that exists, or at the end.
pub open spec fn coherent(v: SessionView) -> bool {
    &&& 0 <= v.translated <= v.base <= v.cues.len()
    &&& match v.phase {
        Phase::Batch => v.base < v.cues.len(),
        Phase::Single(o) => o < batch_len(v),
        Phase::Finished => v.base == v.cues.len(),
    }
}

/// The number of the cue `offset` into the batch.
pub open spec fn number_at(v: SessionView, offset: int) -> usize {
    (v.base + offset + 1) as usize
}

/// What the model said about the cue `offset` into the batch, if it said something.
pub open spec fn said(v: SessionView, offset: int) -> Option<Seq<char>> {
    let n = number_at(v, offset);
    if v.got.contains_key(n) && text::trim(v.got[n]).len() > 0 {
        Some(text::trim(v.got[n]))
    } else {
        None
    }
}

/// The first cue of the batch, from `offset` on, whose number did not come back.
pub open spec fn first_missing(v: SessionView, offset: int) -> int
    decreases batch_len(v) - offset,
{
    if offset >= batch_len(v) {
        batch_len(v)
    } else if !v.got.contains_key(number_at(v, offset)) {
        offset
    } else {
        first_missing(v, offset + 1)
    }
}

/// How many of the first `k` cues of the batch the model said something about.
pub open spec fn said_count(v: SessionView, k: int) -> int
    decreases k,
{
    if k <= 0 {
        0
    } else if said(v, k - 1) is Some {
        said_count(v, k - 1) + 1
    } else {
        said_count(v, k - 1)
    }
}

/// The cues, with what the model said about the first `k` of the batch.
pub open spec fn with_said(v: SessionView, k: int) -> Seq<CueView> {
    Seq::new(
        v.cues.len(),
        |i: int|
            if v.base <= i < v.base + k && said(v, i - v.base) is Some {
                CueView { translated: said(v, i - v.base), ..v.cues[i] }
            } else {
                v.cues[i]
            },
    )
}

/// The session once its batch is answered for as well as it will be.
pub open spec fn batch_done(v: SessionView) -> SessionView {
    let base = v.base + batch_len(v);
    SessionView {
        cues: with_said(v, batch_len(v)),
        base,
        phase: if base < v.cues.len() {
            Phase::Batch
        } else {
            Phase::Finished
        },
        got: Map::empty(),
        translated: v.translated + said_count(v, batch_len(v)),
    }
}

/// The session when everything before `offset` in its batch has been dealt with: it asks for
/// the next cue that is missing, alone, or goes on to the next batch.
pub open spec fn moved_on(v: SessionView, offset: int) -> SessionView {
    let o = first_missing(v, offset);
    if o < batch_len(v) {
        SessionView { phase: Phase::Single(o as usize), ..v }
    } else {
        batch_done(v)
    }
}

/// What is known about the batch after a reply, by number: the reply to a batch says it all, the
/// reply to a lone line adds what it says about that line.
pub open spec fn learned(v: SessionView, reply: Option<Seq<char>>) -> Map<usize, Seq<char>> {
    match (v.phase, reply) {
        (Phase::Batch, Some(s)) => entries(text::lines(s)),
        (Phase::Batch, None) => Map::empty(),
        (Phase::Single(o), Some(s)) => match lone_answer(s, number_at(v, o as int)) {
            Some(t) => v.got.insert(number_at(v, o as int), t),
            None => v.got,
        },
        _ => v.got,
    }
}

/// The session after a reply, or after a request that failed.
pub open spec fn answered(v: SessionView, reply: Option<Seq<char>>) -> SessionView {
    let w = SessionView { got: learned(v, reply), ..v };
    match v.phase {
        Phase::Batch => moved_on(w, 0),
        Phase::Single(o) => moved_on(w, o + 1),
        Phase::Finished => v,
    }
}

/// What the model is asked next: the lines of the batch, or one line alone.
pub open spec fn asked(v: SessionView) -> Option<Seq<char>> {
    match v.phase {
        Phase::Batch => Some(
            text::join(
                batch_lines(v.cues.subrange(v.base, v.base + batch_len(v)), v.base as nat),
                seq!['\n'],
            ),
        ),
        Phase::Single(o) => Some(
            numbered(number_at(v, o as int) as nat, v.cues[v.base + o].text),
        ),
        Phase::Finished => None,
    }
}

impl Session {
    /// The session is at a batch that exists, or at the end.
    pub open spec fn wf(&self) -> bool {
        coherent(self@)
    }

    /// A translation of `list` that has asked for nothing yet.
    pub fn start(list: Vec<Cue>) -> (r: Session)
        ensures
            r.wf(),
            r@ == (SessionView {
                cues: cues::views(list@),
                base: 0,
                phase: if list@.len() > 0 {
                    Phase::Batch
                } else {
                    Phase::Finished
                },
                got: Map::empty(),
                translated: 0,
            }),
    {
        let phase = if list.len() > 0 {
            Phase::Batch
        } else {
            Phase::Finished
        };
        let r = Session { cues: list, base: 0, phase, got: HashMap::new(), translated: 0 };
        assert(r@.got =~= Map::empty());
        r
    }

    fn batch_size(&self) -> (r: usize)
        requires
            self.wf(),
        ensures
            r == batch_len(self@),
            self@.cues.len() <= usize::MAX,
    {
        let left: usize = self.cues.len() - self.base;
        if left < BATCH {
            left
        } else {
            BATCH
        }
    }

    /// What to ask the model next: nothing once every batch is done.
    pub fn request(&self) -> (r: Option<String>)
        requires
            self.wf(),
        ensures
            text::opt(r) == asked(self@),
    {
        match self.phase {
            Phase::Finished => None,
            Phase::Batch => {
                let n: usize = self.batch_size();
                let batch = slice_subrange(self.cues.as_slice(), self.base, self.base + n);
                assert(cues::views(batch@) =~= self@.cues.subrange(
                    self@.base,
                    self@.base + batch_len(self@),
                ));
                Some(render_batch(batch, self.base))
            },
            Phase::Single(o) => {
                assert(self@.cues.len() == self.cues.len());
                let cue = &self.cues[self.base + o];
                let line = numbered_of(
                    self.base + o + 1,
                    text::chars_of(&cue.text).as_slice(),
                );
                Some(text::string_of(line.as_slice()))
            },
        }
    }

    /// Takes in a reply, or a failure to get one. Returns how many cues are dealt with, out of
    /// how many, when that completed a batch.
    pub fn reply(&mut self, reply: Option<&str>) -> (r: Option<(usize, usize)>)
        requires
            old(self).wf(),
        ensures
            final(self).wf(),
            final(self)@ == answered(
                old(self)@,
                match reply {
                    Some(s) => Some(s@),
                    None => None,
                },
            ),
            r == if final(self)@.base > old(self)@.base {
                Some((final(self).base, final(self).cues@.len() as usize))
            } else {
                None
            },
    {
        match self.phase {
            Phase::Finished => None,
            Phase::Batch => {
                self.got =
                match reply {
                    Some(s) => parse_reply(s),
                    None => {
                        let none: HashMap<usize, String> = HashMap::new();
                        assert(map_texts(none@) =~= Map::empty());
                        none
                    },
                };
                self.move_on(0)
            },
            Phase::Single(o) => {
                assert(self@.cues.len() == self.cues.len());
                let n: usize = self.base + o + 1;
                if let Some(s) = reply {
                    if let Some(t) = lone_answer_of(s, n) {
                        let ghost before = map_texts(self.got@);
                        self.got.insert(n, t);
                        assert(map_texts(self.got@) =~= before.insert(n, t@));
                    }
                }
                self.move_on(o + 1)
            },
        }
    }

    fn move_on(&mut self, offset: usize) -> (r: Option<(usize, usize)>)
        requires
            old(self)@.phase != Phase::Finished,
            old(self).wf(),
            offset <= batch_len(old(self)@),
        ensures
            final(self).wf(),
            final(self)@ == moved_on(old(self)@, offset as int),
            r == if final(self)@.base > old(self)@.base {
                Some((final(self).base, final(self).cues@.len() as usize))
            } else {
                None
            },
    {
        let n: usize = self.batch_size();
        let mut o: usize = offset;
        let ghost v = self@;
        while o < n
            invariant
                self.wf(),
                self@ == v,
                n == batch_len(v),
                offset <= o <= n,
                v.phase != Phase::Finished,
                v == old(self)@,
                v.cues.len() <= usize::MAX,
                first_missing(v, offset as int) == first_missing(v, o as int),
            decreases n - o,
        {
            if !self.got.contains_key(&(self.base + o + 1)) {
                self.phase = Phase::Single(o);
                return None;
            }
            o += 1;
        }
        self.finish_batch();
        Some((self.base, self.cues.len()))
    }

    fn finish_batch(&mut self)
        requires
            old(self)@.phase != Phase::Finished,
            old(self).wf(),
        ensures
            final(self).wf(),
            final(self)@ == batch_done(old(self)@),
            final(self)@.base > old(self)@.base,
    {
        let n: usize = self.batch_size();
        let ghost v = self@;
        let mut k: usize = 0;
        assert(with_said(v, 0) =~= v.cues);
        while k < n
            invariant
                n == batch_len(v),
                k <= n,
                coherent(v),
                v == old(self)@,
                v.cues.len() <= usize::MAX,
                self@ == (SessionView {
                    cues: with_said(v, k as int),
                    translated: v.translated + said_count(v, k as int),
                    ..v
                }),
                0 <= said_count(v, k as int) <= k,
            decreases n - k,
        {
            let number: usize = self.base + k + 1;
            let ghost before = self@.cues;
            if let Some(t) = self.got.get(&number) {
                assert(map_texts(self.got@)[number] == self.got@[number]@);
                let trimmed = text::trimmed(t);
                if trimmed.len() > 0 {
                    let at: usize = self.base + k;
                    assert(before.len() == self.cues@.len());
                    self.cues[at].translated = Some(text::string_of(trimmed.as_slice()));
                    self.translated = self.translated + 1;
                    assert(self@.cues =~= before.update(
                        at as int,
                        CueView { translated: said(v, k as int), ..before[at as int] },
                    ));
                }
            }
            assert(self@.cues =~= with_said(v, k + 1));
            k += 1;
        }
        assert(self@.cues.len() == v.cues.len());
        assert(self.cues@.len() == v.cues.len());
        self.base = self.base + n;
        self.phase = if self.base < self.cues.len() {
            Phase::Batch
        } else {
            Phase::Finished
        };
        self.got = HashMap::new();
        assert(self@.got =~= Map::empty());
        assert(self@.cues == with_said(v, batch_len(v)));
        assert(self@ =~= batch_done(v));
    }
}

/// Where and how to reach the gateway for one job.
#[derive(Debug, Clone, PartialEq, Eq)]
pub struct GatewayConfig {
    pub url: String,
    pub token: Option<String>,
    pub model: String,
}

/// What the environment says about the gateway.
#[derive(Debug, Clone, PartialEq, Eq)]
pub struct GatewayEnv {
    pub url: Option<String>,
    pub token: Option<String>,
    pub model: Option<String>,
}

/// The address of the gateway: what the environment says, without slashes at the end, or the
/// local one.
pub open spec fn gateway_url(env: Option<Seq<char>>) -> Seq<char> {
    match env {
        Some(s) if text::without_end(text::trim(s), '/').len() > 0 => text::without_end(
            text::trim(s),
            '/',
        ),
        _ => DEFAULT_GATEWAY_URL@,
    }
}

/// The model: the one that was asked for, or the one the environment names, or the local one.
pub open spec fn chosen_model(asked: Option<Seq<char>>, env: Option<Seq<char>>) -> Seq<char> {
    match text::given(asked) {
        Some(m) => m,
        None => match text::given(env) {
            Some(m) => m,
            None => DEFAULT_MODEL@,
        },
    }
}

impl GatewayConfig {
    /// Resolves what the environment says, with `model` overriding the default where the
    /// caller named one.
    #[must_use]
    pub fn from_env(model: Option<String>, env: GatewayEnv) -> (r: Self)
        ensures
            r.url@ == gateway_url(text::opt(env.url)),
            text::opt(r.token) == text::given(text::opt(env.token)),
            r.model@ == chosen_model(text::opt(model), text::opt(env.model)),
    {
        let url = match &env.url {
            Some(s) => {
                let t = text::trimmed(s);
                let u = text::without_end_of(t.as_slice(), '/');
                if u.len() > 0 {
                    text::string_of(u)
                } else {
                    DEFAULT_GATEWAY_URL.to_string()
                }
            },
            None => DEFAULT_GATEWAY_URL.to_string(),
        };
        let token = text::given_of(&env.token);
        let model = match text::given_of(&model) {
            Some(m) => m,
            None => match text::given_of(&env.model) {
                Some(m) => m,
                None => DEFAULT_MODEL.to_string(),
            },
        };
        GatewayConfig { url, token, model }
    }

    /// Where completions are asked for.
    pub fn completions_url(&self) -> (r: String)
        ensures
            r@ == text::without_end(self.url@, '/') + "/v1/chat/completions"@,
    {
        let cs = text::chars_of(&self.url);
        let mut out = slice_to_vec(text::without_end_of(cs.as_slice(), '/'));
        text::append_str(&mut out, "/v1/chat/completions");
        text::string_of(out.as_slice())
    }

    /// The bearer to present: the token that was configured, or the one a local gateway
    /// accepts.
    pub fn bearer(&self) -> (r: String)
        ensures
            r@ == match self.token {
                Some(t) => t@,
                None => "ryu-local"@,
            },
    {
        match &self.token {
            Some(t) => t.clone(),
            None => "ryu-local".to_string(),
        }
    }
}

/// The content of a completion in its JSON text: an error where the text is no JSON, nothing
/// where there is no such string.
pub open spec fn content_in(body: Seq<char>) -> Result<Option<Seq<char>>, Seq<char>> {
    match json::json_fault(body) {
        Some(e) => Err(e),
        None => if json::json_count(body, "/choices"@) is Some {
            Ok(json::json_text(body, "/choices/0/message/content"@))
        } else {
            Ok(None)
        },
    }
}

/// A result of strings as a mathematical value.
pub open spec fn result_text(r: Result<Option<String>, String>) -> Result<
    Option<Seq<char>>,
    Seq<char>,
> {
    match r {
        Ok(s) => Ok(text::opt(s)),
        Err(e) => Err(e@),
    }
}

fn content_of(body: &str) -> (r: Result<Option<String>, String>)
    ensures
        result_text(r) == content_in(body@),
{
    match json::fault_of(body) {
        Some(e) => Err(e),
        None => match json::count_at(body, "/choices") {
            Some(_) => Ok(json::text_at(body, "/choices/0/message/content")),
            None => Ok(None),
        },
    }
}

/// What a completion says, once its content has been read: one without any text is an error.
pub open spec fn completion(content: Result<Option<Seq<char>>, Seq<char>>) -> Result<
    Seq<char>,
    Seq<char>,
> {
    match content {
        Err(e) => Err(e),
        Ok(Some(s)) if text::trim(s).len() > 0 => Ok(s),
        Ok(_) => Err("the gateway returned an empty completion"@),
    }
}

/// A result of one string as a mathematical value.
pub open spec fn reply_text(r: Result<String, String>) -> Result<Seq<char>, Seq<char>> {
    match r {
        Ok(s) => Ok(s@),
        Err(e) => Err(e@),
    }
}

/// What a completion says, once its content has been read.
pub fn completion_of(content: Result<Option<String>, String>) -> (r: Result<String, String>)
    ensures
        reply_text(r) == completion(result_text(content)),
{
    match content {
        Err(e) => Err(e),
        Ok(Some(s)) => {
            if text::trimmed(&s).len() > 0 {
                Ok(s)
            } else {
                Err("the gateway returned an empty completion".to_string())
            }
        },
        Ok(None) => Err("the gateway returned an empty completion".to_string()),
    }
}

/// What the gateway's answer to a request for a completion says: an error that quotes the
/// start of the body where it refused.
pub fn read_completion(success: bool, status: &str, body: &str) -> (r: Result<String, String>)
    ensures
        reply_text(r) == if success {
            completion(content_in(body@))
        } else {
            Err("gateway "@ + status@ + ": "@ + text::head(body@, 400))
        },
{
    if !success {
        let mut out = text::chars_of("gateway ");
        text::append_str(&mut out, status);
        text::append_str(&mut out, ": ");
        text::append_str(&mut out, &text::head_of(body, 400));
        return Err(text::string_of(out.as_slice()));
    }
    completion_of(content_of(body))
}

/// A reply never changes how many cues there are, what was said in them, or when they appear
/// and leave: translation touches nothing but the translations, and only those of the batch
/// it is at.
pub proof fn translation_keeps_the_times(v: SessionView, reply: Option<Seq<char>>)
    requires
        coherent(v),
    ensures
        coherent(answered(v, reply)),
        answered(v, reply).cues.len() == v.cues.len(),
        forall|i: int|
            #![trigger answered(v, reply).cues[i]]
            0 <= i < v.cues.len() ==> {
                let c = answered(v, reply).cues[i];
                &&& c.start_ms == v.cues[i].start_ms
                &&& c.end_ms == v.cues[i].end_ms
                &&& c.text == v.cues[i].text
                &&& !(v.base <= i < v.base + batch_len(v)) ==> c == v.cues[i]
            },
{
    let w = SessionView { got: learned(v, reply), ..v };
    match v.phase {
        Phase::Batch => lemma_moved_on(w, 0),
        Phase::Single(o) => lemma_moved_on(w, o + 1),
        Phase::Finished => {},
    }
}

proof fn lemma_moved_on(v: SessionView, offset: int)
    requires
        coherent(v),
        v.phase != Phase::Finished,
        0 <= offset <= batch_len(v),
    ensures
        coherent(moved_on(v, offset)),
        moved_on(v, offset).cues == v.cues || moved_on(v, offset).cues == with_said(
            v,
            batch_len(v),
        ),
{
    lemma_first_missing(v, offset);
    lemma_said_count(v, batch_len(v));
}

proof fn lemma_first_missing(v: SessionView, offset: int)
    requires
        0 <= offset <= batch_len(v),
    ensures
        offset <= first_missing(v, offset) <= batch_len(v),
    decreases batch_len(v) - offset,
{
    if offset < batch_len(v) && v.got.contains_key(number_at(v, offset)) {
        lemma_first_missing(v, offset + 1);
    }
}

proof fn lemma_said_count(v: SessionView, k: int)
    ensures
        0 <= said_count(v, k),
        k >= 0 ==> said_count(v, k) <= k,
    decreases k,
{
    if k > 0 {
        lemma_said_count(v, k - 1);
    }
}

/// What a reply says about a number stands behind that number in one of its lines.
proof fn lemma_entries(lines: Seq<Seq<char>>, n: usize)
    ensures
        entries(lines).contains_key(n) ==> exists|i: int|
            #![trigger lines[i]]
            0 <= i < lines.len() && line_entry(lines[i]) == Some((n, entries(lines)[n]))
                && entries(lines)[n].len() > 0,
    decreases lines.len(),
{
    if lines.len() > 0 {
        let front = lines.drop_last();
        lemma_entries(front, n);
        if entries(lines).contains_key(n) {
            match line_entry(lines.last()) {
                Some((m, t)) if t.len() > 0 && m == n => {
                    assert(lines[lines.len() - 1] == lines.last());
                },
                _ => {
                    assert(entries(front).contains_key(n));
                    let i = choose|i: int|
                        #![trigger front[i]]
                        0 <= i < front.len() && line_entry(front[i]) == Some(
                            (n, entries(front)[n]),
                        ) && entries(front)[n].len() > 0;
                    assert(lines[i] == front[i]);
                },
            }
        }
    }
}

/// A reply is matched by number, not by position. When the batch is dealt with, the translation
/// of a cue is what was learned about its own number, and nothing where nothing was. What was
/// learned from the reply to a batch stands behind that number in one of its lines, and the
/// reply to a lone line teaches nothing about any other. So a line that is merged, split or
/// left out costs that line, and shifts none behind it.
pub proof fn a_line_is_matched_by_its_number(v: SessionView, reply: Option<Seq<char>>, i: int)
    requires
        coherent(v),
        v.phase != Phase::Finished,
        v.cues.len() <= usize::MAX,
        v.base <= i < v.base + batch_len(v),
    ensures
        ({
            let n = number_at(v, i - v.base);
            let got = learned(v, reply);
            &&& answered(v, reply).base > v.base ==> answered(v, reply).cues[i].translated
                == if got.contains_key(n) && text::trim(got[n]).len() > 0 {
                Some(text::trim(got[n]))
            } else {
                v.cues[i].translated
            }
            &&& v.phase == Phase::Batch && got.contains_key(n) ==> reply is Some && exists|k: int|
                0 <= k < text::lines(reply->0).len() && line_entry(
                    #[trigger] text::lines(reply->0)[k],
                ) == Some((n, got[n]))
            &&& v.phase matches Phase::Single(o) ==> i == v.base + o || (got.contains_key(n)
                == v.got.contains_key(n) && (got.contains_key(n) ==> got[n] == v.got[n]))
        }),
{
    let n = number_at(v, i - v.base);
    let w = SessionView { got: learned(v, reply), ..v };
    match v.phase {
        Phase::Batch => {
            lemma_first_missing(w, 0);
            if let Some(s) = reply {
                let lines = text::lines(s);
                lemma_entries(lines, n);
                if entries(lines).contains_key(n) {
                    let k = choose|k: int|
                        #![trigger lines[k]]
                        0 <= k < lines.len() && line_entry(lines[k]) == Some((n, entries(lines)[n]))
                            && entries(lines)[n].len() > 0;
                    assert(line_entry(text::lines(reply->0)[k]) == Some((n, entries(lines)[n])));
                }
            }
        },
        Phase::Single(o) => {
            lemma_first_missing(w, o + 1);
        },
        Phase::Finished => {},
    }
}

proof fn lemma_flat(s: Seq<char>)
    ensures
        text::occurrences(flat(s), '\n') == 0,
    decreases s.len(),
{
    if s.len() > 0 {
        lemma_flat(s.drop_last());
        assert(flat(s).drop_last() =~= flat(s.drop_last()));
    }
}

proof fn lemma_digits_have_no_breaks(s: Seq<char>)
    requires
        text::all_digits(s),
    ensures
        text::occurrences(s, '\n') == 0,
    decreases s.len(),
{
    if s.len() > 0 {
        assert(text::is_digit(s[s.len() - 1]));
        assert forall|i: int| 0 <= i < s.drop_last().len() implies text::is_digit(
            #[trigger] s.drop_last()[i],
        ) by {
            assert(text::is_digit(s[i]));
        }
        lemma_digits_have_no_breaks(s.drop_last());
    }
}

/// A numbered line of one line is read back as its number and its text, trimmed.
pub proof fn a_numbered_line_reads_back(n: usize, s: Seq<char>)
    ensures
        line_entry(numbered(n as nat, s)) == Some((n, text::trim(s))),
{
    let d = text::decimal(n as nat);
    let k = d.len() as int;
    text::decimal_reads_back(n as nat, usize::MAX as nat);
    let head = d + seq![MARKER];
    let tail = seq![' '] + s;
    let line = numbered(n as nat, s);
    assert(line =~= head + tail);
    assert(text::is_digit(d[0]));
    assert(line[0] == d[0]);
    assert(text::trim_start(line) == line);
    text::lemma_trim_end_add(head, tail);
    let t = text::trim(line);
    assert(t == head + text::trim_end(tail));
    assert forall|i: int| 0 <= i < k implies #[trigger] t[i] != MARKER by {
        assert(t[i] == d[i]);
        assert(text::is_digit(d[i]));
    }
    assert(t[k] == MARKER);
    text::lemma_first_index(t, MARKER, k);
    assert(t.take(k) =~= d);
    assert(t.skip(k + 1) =~= text::trim_end(tail));
    assert(text::is_digit(d[d.len() - 1]));
    text::lemma_trim_fixed(d);
    assert(unbulleted(d) == d);
    assert(index_in(d) == Some(n as nat));
    text::lemma_trim_either_order(tail);
    assert(tail.drop_first() =~= s);
    assert(text::trim_start(tail) == text::trim_start(s));
    let u = text::trim_start(text::trim_end(tail));
    assert(u == text::trim(s));
    text::lemma_trim(s);
    text::lemma_trim_fixed(u);
}

/// The texts of the first `k` of `cues` that say something, each on one line, by the number
/// that its line has in a request.
pub open spec fn own_lines(cues: Seq<CueView>, base: nat, k: int) -> Map<usize, Seq<char>> {
    Map::new(
        |n: usize| base < n <= base + k && text::trim(flat(cues[n - base - 1].text)).len() > 0,
        |n: usize| text::trim(flat(cues[n - base - 1].text)),
    )
}

proof fn lemma_batch_entries(cues: Seq<CueView>, base: nat, k: int)
    requires
        0 <= k <= cues.len(),
        base + cues.len() <= usize::MAX,
    ensures
        entries(batch_lines(cues, base).take(k)) == own_lines(cues, base, k),
    decreases k,
{
    let all = batch_lines(cues, base);
    if k > 0 {
        assert(all.take(k).drop_last() =~= all.take(k - 1));
        assert(all.take(k).last() == all[k - 1]);
        a_numbered_line_reads_back((base + k) as usize, flat(cues[k - 1].text));
        lemma_batch_entries(cues, base, k - 1);
    }
    assert(entries(all.take(k)) =~= own_lines(cues, base, k));
}

/// A model that echoes a request is understood: the reply gives every cue that says something
/// back its own text, on one line, and nothing else.
pub proof fn a_request_reads_back(cues: Seq<CueView>, base: nat)
    requires
        base + cues.len() <= usize::MAX,
    ensures
        entries(text::lines(text::join(batch_lines(cues, base), seq!['\n']))) == own_lines(
            cues,
            base,
            cues.len() as int,
        ),
{
    let all = batch_lines(cues, base);
    lemma_batch_entries(cues, base, cues.len() as int);
    assert(all.take(cues.len() as int) =~= all);
    if cues.len() == 0 {
        let none = Seq::<char>::empty();
        let lines = text::lines(none);
        assert(text::join(all, seq!['\n']) =~= none);
        assert(lines =~= seq![none]);
        assert(lines.drop_last() =~= all);
        assert(text::trim(none) =~= none);
        assert(line_entry(none) is None);
        assert(entries(lines) == entries(all));
    } else {
        assert forall|j: int| 0 <= j < all.len() implies text::occurrences(#[trigger] all[j], '\n')
            == 0 by {
            let n = (base + j + 1) as nat;
            let s = flat(cues[j].text);
            lemma_flat(cues[j].text);
            text::decimal_reads_back(n, n);
            lemma_digits_have_no_breaks(text::decimal(n));
            text::lemma_occurrences_add(text::decimal(n) + seq![MARKER, ' '], s, '\n');
            text::lemma_occurrences_add(text::decimal(n), seq![MARKER, ' '], '\n');
            reveal_with_fuel(text::occurrences, 3);
        }
        text::lemma_lines_join(all);
    }
}

/// The count of translated cues is right, and the batches that are not done are untouched.
pub open spec fn counted(v: SessionView) -> bool {
    &&& v.translated == store::translated(v.cues.take(v.base))
    &&& forall|i: int| v.base <= i < v.cues.len() ==> (#[trigger] v.cues[i]).translated is None
}

proof fn lemma_counted(v: SessionView, k: int)
    requires
        coherent(v),
        counted(v),
        0 <= k <= batch_len(v),
    ensures
        store::translated(with_said(v, batch_len(v)).take(v.base + k)) == v.translated
            + said_count(v, k),
    decreases k,
{
    let all = with_said(v, batch_len(v));
    if k == 0 {
        assert(all.take(v.base) =~= v.cues.take(v.base));
    } else {
        lemma_counted(v, k - 1);
        let i = v.base + k - 1;
        assert(all.take(v.base + k).drop_last() =~= all.take(v.base + k - 1));
        assert(v.cues[i].translated is None);
    }
}

/// The session never loses count: it reports exactly as many translated cues as there are.
pub proof fn the_count_is_right(v: SessionView, reply: Option<Seq<char>>)
    requires
        coherent(v),
        counted(v),
    ensures
        counted(answered(v, reply)),
{
    let w = SessionView { got: learned(v, reply), ..v };
    match v.phase {
        Phase::Batch => {
            lemma_counted(w, batch_len(w));
            lemma_moved_on(w, 0);
        },
        Phase::Single(o) => {
            lemma_counted(w, batch_len(w));
            lemma_moved_on(w, o + 1);
        },
        Phase::Finished => {},
    }
}

/// Every reply, and every failure, moves the session on: to a later cue of its batch that is
/// asked for alone, or past the batch. Each cue is asked for alone at most once.
pub proof fn every_reply_moves_on(v: SessionView, reply: Option<Seq<char>>)
    requires
        coherent(v),
        v.phase != Phase::Finished,
    ensures
        ({
            let w = answered(v, reply);
            ||| w.base > v.base
            ||| w.base == v.base && w.phase is Single && match v.phase {
                Phase::Single(o) => w.phase->Single_0 > o,
                _ => true,
            }
        }),
{
    let w = SessionView { got: learned(v, reply), ..v };
    match v.phase {
        Phase::Batch => lemma_first_missing(w, 0),
        Phase::Single(o) => lemma_first_missing(w, o + 1),
        Phase::Finished => {},
    }
}

/// A request is one line for each of its cues, in order: the number of the cue in the whole
/// file, the marker, a space, and the text of the cue with spaces for its line breaks. A batch
/// is the next 25 cues, or as many as are left. A lone line is asked for by its number too.
pub proof fn a_request_is_numbered_lines(v: SessionView, i: int)
    requires
        coherent(v),
        v.phase != Phase::Finished,
        v.cues.len() <= usize::MAX,
    ensures
        ({
            let left = v.cues.len() - v.base;
            let size = if left < 25 {
                left
            } else {
                25
            };
            &&& v.phase == Phase::Batch ==> {
                &&& asked(v) matches Some(r)
                &&& text::lines(r).len() == size
                &&& 0 <= i < size ==> {
                    let line = text::lines(r)[i];
                    let number = text::decimal((v.base + i + 1) as nat);
                    let said = v.cues[v.base + i].text;
                    let k = number.len() as int;
                    &&& line.len() == k + 2 + said.len()
                    &&& line.take(k) == number
                    &&& line[k] == '⟩' && line[k + 1] == ' '
                    &&& forall|j: int|
                        0 <= j < said.len() ==> #[trigger] line[k + 2 + j] == if said[j] == '\n' {
                            ' '
                        } else {
                            said[j]
                        }
                }
            }
            &&& v.phase matches Phase::Single(o) ==> asked(v) == Some(
                text::decimal((v.base + o + 1) as nat) + seq!['⟩', ' '] + v.cues[v.base + o].text,
            )
        }),
{
    if v.phase == Phase::Batch {
        let batch = v.cues.subrange(v.base, v.base + batch_len(v));
        let all = batch_lines(batch, v.base as nat);
        lemma_batch_breaks(batch, v.base as nat);
        text::lemma_lines_join(all);
        if 0 <= i < all.len() {
            let number = text::decimal((v.base + i + 1) as nat);
            let line = all[i];
            assert(batch[i] == v.cues[v.base + i]);
            assert(line.take(number.len() as int) =~= number);
        }
    }
}

proof fn lemma_batch_breaks(cues: Seq<CueView>, base: nat)
    ensures
        forall|j: int|
            0 <= j < cues.len() ==> text::occurrences(#[trigger] batch_lines(cues, base)[j], '\n')
                == 0,
{
    let all = batch_lines(cues, base);
    assert forall|j: int| 0 <= j < all.len() implies text::occurrences(#[trigger] all[j], '\n')
        == 0 by {
        let n = (base + j + 1) as nat;
        let s = flat(cues[j].text);
        lemma_flat(cues[j].text);
        text::decimal_reads_back(n, n);
        lemma_digits_have_no_breaks(text::decimal(n));
        text::lemma_occurrences_add(text::decimal(n) + seq![MARKER, ' '], s, '\n');
        text::lemma_occurrences_add(text::decimal(n), seq![MARKER, ' '], '\n');
        reveal_with_fuel(text::occurrences, 3);
    }
}

/// What a reply says about a number is what stands behind it in the last of its lines that has
/// that number and says anything. Where there is no such line, it says nothing.
#[verifier::spinoff_prover]
#[verifier::rlimit(60)]
pub proof fn the_last_line_of_a_number_counts(lines: Seq<Seq<char>>, n: usize, t: Seq<char>)
    ensures
        entries(lines).contains_key(n) && entries(lines)[n] == t <==> t.len() > 0 && exists|i: int|
            {
                &&& 0 <= i < lines.len()
                &&& line_entry(#[trigger] lines[i]) == Some((n, t))
                &&& forall|j: int|
                    i < j < lines.len() ==> !(line_entry(#[trigger] lines[j]) matches Some((m, u))
                        && m == n && u.len() > 0)
            },
    decreases lines.len(),
{
    if lines.len() > 0 {
        let front = lines.drop_last();
        let last = line_entry(lines.last());
        the_last_line_of_a_number_counts(front, n, t);
        let hits = last matches Some((m, u)) && m == n && u.len() > 0;
        assert(lines[lines.len() - 1] == lines.last());
        if hits {
            let (_, u) = last->0;
            assert(entries(lines)[n] == u);
            if t == u {
                assert(line_entry(lines[lines.len() - 1]) == Some((n, t)));
            } else if t.len() > 0 && exists|i: int|
                {
                    &&& 0 <= i < lines.len()
                    &&& line_entry(#[trigger] lines[i]) == Some((n, t))
                    &&& forall|j: int|
                        i < j < lines.len() ==> !(line_entry(#[trigger] lines[j]) matches Some(
                            (m, u),
                        ) && m == n && u.len() > 0)
                } {
                let i = choose|i: int|
                    {
                        &&& 0 <= i < lines.len()
                        &&& line_entry(#[trigger] lines[i]) == Some((n, t))
                        &&& forall|j: int|
                            i < j < lines.len() ==> !(line_entry(#[trigger] lines[j]) matches Some(
                                (m, u),
                            ) && m == n && u.len() > 0)
                    };
                assert(i == lines.len() - 1);
                assert(false);
            }
        } else {
            assert(entries(lines).contains_key(n) == entries(front).contains_key(n));
            assert(entries(lines).contains_key(n) ==> entries(lines)[n] == entries(front)[n]);
            if entries(front).contains_key(n) && entries(front)[n] == t {
                let i = choose|i: int|
                    {
                        &&& 0 <= i < front.len()
                        &&& line_entry(#[trigger] front[i]) == Some((n, t))
                        &&& forall|j: int|
                            i < j < front.len() ==> !(line_entry(#[trigger] front[j]) matches Some(
                                (m, u),
                            ) && m == n && u.len() > 0)
                    };
                assert(lines[i] == front[i]);
                assert forall|j: int| i < j < lines.len() implies !(line_entry(
                    #[trigger] lines[j],
                ) matches Some((m, u)) && m == n && u.len() > 0) by {
                    if j < front.len() {
                        assert(lines[j] == front[j]);
                    }
                }
            }
            if t.len() > 0 && exists|i: int|
                {
                    &&& 0 <= i < lines.len()
                    &&& line_entry(#[trigger] lines[i]) == Some((n, t))
                    &&& forall|j: int|
                        i < j < lines.len() ==> !(line_entry(#[trigger] lines[j]) matches Some(
                            (m, u),
                        ) && m == n && u.len() > 0)
                } {
                let i = choose|i: int|
                    {
                        &&& 0 <= i < lines.len()
                        &&& line_entry(#[trigger] lines[i]) == Some((n, t))
                        &&& forall|j: int|
                            i < j < lines.len() ==> !(line_entry(#[trigger] lines[j]) matches Some(
                                (m, u),
                            ) && m == n && u.len() > 0)
                    };
                assert(i < front.len());
                assert(front[i] == lines[i]);
                assert forall|j: int| i < j < front.len() implies !(line_entry(
                    #[trigger] front[j],
                ) matches Some((m, u)) && m == n && u.len() > 0) by {
                    assert(lines[j] == front[j]);
                }
            }
        }
    }
}

/// Where a cue of a batch is asked for alone, its number has not come back, and those of all
/// the cues between the last one that was asked for and this one have. A batch is left when no
/// number is missing that was not asked for, and the next one begins right behind it.
pub proof fn what_is_missing_is_asked_for_alone(v: SessionView, reply: Option<Seq<char>>, i: int)
    requires
        coherent(v),
        v.phase != Phase::Finished,
        v.cues.len() <= usize::MAX,
    ensures
        ({
            let w = answered(v, reply);
            let got = learned(v, reply);
            let left = v.cues.len() - v.base;
            let size = if left < 25 {
                left
            } else {
                25
            };
            let from = match v.phase {
                Phase::Single(o) => o + 1,
                _ => 0,
            };
            let known = |o: int| got.contains_key((v.base + o + 1) as usize);
            &&& w.base == v.base ==> {
                &&& w.phase matches Phase::Single(o)
                &&& from <= o < size
                &&& !known(o as int)
                &&& from <= i < o ==> known(i)
                &&& w.cues == v.cues
                &&& w.got == got
            }
            &&& w.base != v.base ==> {
                &&& w.base == v.base + size
                &&& from <= i < size ==> known(i)
                &&& w.phase == if w.base < v.cues.len() {
                    Phase::Batch
                } else {
                    Phase::Finished
                }
            }
        }),
{
    let w = SessionView { got: learned(v, reply), ..v };
    let from: int = match v.phase {
        Phase::Single(o) => o + 1,
        _ => 0,
    };
    lemma_first_missing(w, from);
    lemma_first_missing_is_first(w, from);
    let o = first_missing(w, from);
    assert(number_at(w, i) == (v.base + i + 1) as usize);
    assert(answered(v, reply) == moved_on(w, from));
    assert(batch_len(w) > 0);
    if o < batch_len(w) {
        assert(answered(v, reply).phase == Phase::Single(o as usize));
        assert(o as usize == o);
        assert(number_at(w, o) == (v.base + o + 1) as usize);
    } else {
        assert(answered(v, reply) == batch_done(w));
    }
}

proof fn lemma_first_missing_is_first(v: SessionView, offset: int)
    requires
        0 <= offset <= batch_len(v),
    ensures
        first_missing(v, offset) < batch_len(v) ==> !v.got.contains_key(
            number_at(v, first_missing(v, offset)),
        ),
        forall|i: int|
            offset <= i < first_missing(v, offset) ==> v.got.contains_key(
                #[trigger] number_at(v, i),
            ),
    decreases batch_len(v) - offset,
{
    if offset < batch_len(v) && v.got.contains_key(number_at(v, offset)) {
        lemma_first_missing_is_first(v, offset + 1);
    }
}

/// What is learned from a reply: of a batch, what its lines say; of a lone line, what the reply
/// says under its number or, where no line of the reply has a number, its first line that is
/// neither blank nor a code fence, trimmed. A request that failed teaches nothing.
pub proof fn replies_teach_what_they_say(v: SessionView, s: Seq<char>, i: int)
    requires
        coherent(v),
    ensures
        v.phase == Phase::Batch ==> learned(v, Some(s)) == entries(text::lines(s)) && learned(v, None)
            == Map::<usize, Seq<char>>::empty(),
        v.phase matches Phase::Single(o) ==> {
            let n = (v.base + o + 1) as usize;
            let lines = text::lines(s);
            let numberless = forall|k: int|
                0 <= k < lines.len() ==> line_entry(#[trigger] lines[k]) is None;
            let empty = |k: int|
                text::blank(lines[k]) || (text::trim(lines[k]).len() >= 3 && text::trim(
                    lines[k],
                ).take(3) == seq!['`', '`', '`']);
            &&& learned(v, None) == v.got
            &&& entries(lines).contains_key(n) ==> learned(v, Some(s)) == v.got.insert(
                n,
                entries(lines)[n],
            )
            &&& !entries(lines).contains_key(n) && !numberless ==> learned(v, Some(s)) == v.got
            &&& !entries(lines).contains_key(n) && numberless && 0 <= i < lines.len() && !empty(i) && (
            forall|k: int| 0 <= k < i ==> #[trigger] empty(k)) ==> learned(v, Some(s))
                == v.got.insert(n, text::trim(lines[i]))
            &&& !entries(lines).contains_key(n) && numberless && (forall|k: int|
                0 <= k < lines.len() ==> #[trigger] empty(k)) ==> learned(v, Some(s)) == v.got
        },
{
    if let Phase::Single(o) = v.phase {
        let lines = text::lines(s);
        let empty = |k: int|
            text::blank(lines[k]) || (text::trim(lines[k]).len() >= 3 && text::trim(lines[k]).take(3)
                == seq!['`', '`', '`']);
        assert forall|k: int| #[trigger] empty(k) == (text::trim(lines[k]).len() == 0 || fence(
            text::trim(lines[k]),
        )) by {
            text::lemma_trim(lines[k]);
            let t = text::trim(lines[k]);
            if fence(t) {
                assert(t.take(3) =~= seq!['`', '`', '`']);
            }
            if t.len() >= 3 && t.take(3) == seq!['`', '`', '`'] {
                assert(t.take(3)[0] == '`' && t.take(3)[1] == '`' && t.take(3)[2] == '`');
            }
        }
        if 0 <= i < lines.len() && !empty(i) && (forall|k: int| 0 <= k < i ==> #[trigger] empty(k)) {
            lemma_first_real(lines, i, empty);
        }
        if forall|k: int| 0 <= k < lines.len() ==> #[trigger] empty(k) {
            lemma_none_real(lines, empty);
        }
    }
}

proof fn lemma_first_real(lines: Seq<Seq<char>>, i: int, empty: spec_fn(int) -> bool)
    requires
        0 <= i < lines.len(),
        !empty(i),
        forall|k: int| 0 <= k < i ==> #[trigger] empty(k),
        forall|k: int|
            #[trigger] empty(k) == (text::trim(lines[k]).len() == 0 || fence(text::trim(lines[k]))),
    ensures
        first_real_line(lines) == Some(text::trim(lines[i])),
    decreases i,
{
    if i > 0 {
        let rest = lines.drop_first();
        let behind = |k: int|
            if 0 <= k < rest.len() {
                empty(k + 1)
            } else {
                text::trim(rest[k]).len() == 0 || fence(text::trim(rest[k]))
            };
        assert(empty(0));
        assert forall|k: int| #[trigger] behind(k) == (text::trim(rest[k]).len() == 0 || fence(
            text::trim(rest[k]),
        )) by {
            if 0 <= k < rest.len() {
                assert(rest[k] == lines[k + 1]);
            }
        }
        lemma_first_real(rest, i - 1, behind);
    }
}

proof fn lemma_none_real(lines: Seq<Seq<char>>, empty: spec_fn(int) -> bool)
    requires
        forall|k: int| 0 <= k < lines.len() ==> #[trigger] empty(k),
        forall|k: int|
            #[trigger] empty(k) == (text::trim(lines[k]).len() == 0 || fence(text::trim(lines[k]))),
    ensures
        first_real_line(lines) is None,
    decreases lines.len(),
{
    if lines.len() > 0 {
        let rest = lines.drop_first();
        let behind = |k: int|
            if 0 <= k < rest.len() {
                empty(k + 1)
            } else {
                text::trim(rest[k]).len() == 0 || fence(text::trim(rest[k]))
            };
        assert(empty(0));
        assert forall|k: int| #[trigger] behind(k) == (text::trim(rest[k]).len() == 0 || fence(
            text::trim(rest[k]),
        )) by {
            if 0 <= k < rest.len() {
                assert(rest[k] == lines[k + 1]);
            }
        }
        lemma_none_real(rest, behind);
    }
}

/// The gateway is where the environment says, without slashes at the end, or the local one where
/// that says nothing. The model is the one that was asked for, then the one the environment
/// names, then the local one.
pub proof fn the_gateway_is_configured_in_order(asked: Seq<char>, env: Option<Seq<char>>)
    ensures
        gateway_url(None) == "http://127.0.0.1:7981"@,
        ({
            let t = text::trim(asked);
            let n = gateway_url(Some(asked)).len() as int;
            &&& (forall|i: int| 0 <= i < t.len() ==> #[trigger] t[i] == '/') ==> gateway_url(
                Some(asked),
            ) == "http://127.0.0.1:7981"@
            &&& (exists|i: int| 0 <= i < t.len() && #[trigger] t[i] != '/') ==> {
                &&& 0 < n <= t.len()
                &&& gateway_url(Some(asked)) == t.take(n)
                &&& t[n - 1] != '/'
                &&& forall|i: int| n <= i < t.len() ==> #[trigger] t[i] == '/'
            }
        }),
        !text::blank(asked) ==> chosen_model(Some(asked), env) == text::trim(asked),
        text::blank(asked) ==> chosen_model(Some(asked), env) == chosen_model(None, env),
        !text::blank(asked) ==> chosen_model(None, Some(asked)) == text::trim(asked),
        text::blank(asked) ==> chosen_model(None, Some(asked)) == "gemma-4-E2B-it-Q4_K_M"@,
        chosen_model(None, None) == "gemma-4-E2B-it-Q4_K_M"@,
{
    text::lemma_trim(asked);
    let t = text::trim(asked);
    text::only_the_end_is_dropped(t, '/');
    let kept = text::without_end(t, '/');
    if exists|i: int| 0 <= i < t.len() && #[trigger] t[i] != '/' {
        let i = choose|i: int| 0 <= i < t.len() && #[trigger] t[i] != '/';
        assert(i < kept.len());
    } else if kept.len() > 0 {
        assert(t[kept.len() - 1] == '/');
    }
}

/// A completion is the content of the first choice, as it stands. Text that is no JSON, and a
/// content that is missing or blank, are errors.
pub proof fn a_completion_is_the_first_choice(body: Seq<char>)
    ensures
        ({
            let r = completion(content_in(body));
            let content = json::json_text(body, "/choices/0/message/content"@);
            &&& json::json_fault(body) matches Some(e) ==> r == Err::<Seq<char>, Seq<char>>(e)
            &&& json::json_fault(body) is None ==> {
                &&& json::json_count(body, "/choices"@) is Some && content is Some && !text::blank(
                    content->0,
                ) ==> r == Ok::<Seq<char>, Seq<char>>(content->0)
                &&& json::json_count(body, "/choices"@) is None || content is None || text::blank(
                    content->0,
                ) ==> r == Err::<Seq<char>, Seq<char>>("the gateway returned an empty completion"@)
            }
        }),
{
    if let Some(s) = json::json_text(body, "/choices/0/message/content"@) {
        text::lemma_trim(s);
    }
}

/// A line without the marker says nothing, and neither does one without a number in front of
/// it. Bullets in front of a numbered line make no difference.
pub proof fn bullets_make_no_difference(
    n: usize,
    s: Seq<char>,
    bullets: Seq<char>,
    line: Seq<char>,
)
    ensures
        bullets.len() > 0 && (forall|i: int|
            0 <= i < bullets.len() ==> seq!['-', '*', '•'].contains(#[trigger] bullets[i]))
            ==> line_entry(bullets + seq![' '] + numbered(n as nat, s)) == Some((n, text::trim(s))),
        (forall|i: int| 0 <= i < line.len() ==> #[trigger] line[i] != '⟩') ==> line_entry(line) is None,
        (forall|i: int| 0 <= i < line.len() ==> !('0' <= #[trigger] line[i] <= '9')) ==> line_entry(
            line + seq!['⟩'] + s,
        ) is None,
{
    if bullets.len() > 0 && (forall|i: int|
        0 <= i < bullets.len() ==> seq!['-', '*', '•'].contains(#[trigger] bullets[i])) {
        lemma_bulleted(n, s, bullets);
    }
    if forall|i: int| 0 <= i < line.len() ==> #[trigger] line[i] != '⟩' {
        let t = text::trim(line);
        lemma_trim_from(line);
        if text::first_index(t, MARKER) < t.len() {
            lemma_index_found(t, MARKER);
        }
    }
    if forall|i: int| 0 <= i < line.len() ==> !('0' <= #[trigger] line[i] <= '9') {
        lemma_numberless(line, s);
    }
}

proof fn lemma_index_found(s: Seq<char>, c: char)
    requires
        text::first_index(s, c) < s.len(),
    ensures
        0 <= text::first_index(s, c),
        s[text::first_index(s, c)] == c,
        forall|i: int| 0 <= i < text::first_index(s, c) ==> #[trigger] s[i] != c,
    decreases s.len(),
{
    if s.len() > 0 && s[0] != c {
        let rest = s.drop_first();
        lemma_index_found(rest, c);
        let k = text::first_index(s, c);
        assert(s[k] == rest[k - 1]);
        assert forall|i: int| 0 <= i < k implies #[trigger] s[i] != c by {
            if i > 0 {
                assert(rest[i - 1] == s[i]);
            }
        }
    }
}

/// What is left of a trimmed text comes from it.
proof fn lemma_trim_from(s: Seq<char>)
    ensures
        forall|i: int|
            #![trigger text::trim(s)[i]]
            0 <= i < text::trim(s).len() ==> s.contains(text::trim(s)[i]),
{
    let a = text::trim_start(s);
    text::lemma_trim_start(s);
    text::lemma_trim_end(a);
    assert forall|i: int| #![trigger text::trim(s)[i]] 0 <= i < text::trim(s).len() implies s.contains(
        text::trim(s)[i],
    ) by {
        assert(text::trim(s)[i] == a[i]);
        assert(a[i] == s[i + s.len() - a.len()]);
    }
}

proof fn lemma_numberless(line: Seq<char>, s: Seq<char>)
    requires
        forall|i: int| 0 <= i < line.len() ==> !('0' <= #[trigger] line[i] <= '9'),
    ensures
        line_entry(line + seq!['⟩'] + s) is None,
{
    let whole = line + seq!['⟩'] + s;
    let t = text::trim(whole);
    let a = text::trim_start(whole);
    text::lemma_trim_start(whole);
    text::lemma_trim_end(a);
    let gap = whole.len() - a.len();
    let k = text::first_index(t, MARKER);
    if k < t.len() {
        lemma_index_found(t, MARKER);
        assert(gap <= line.len()) by {
            if gap > line.len() {
                assert(whole.take(gap)[line.len() as int] == MARKER);
            }
        }
        assert(k <= line.len() - gap) by {
            let at = line.len() - gap;
            if at < k {
                assert(t[at] == a[at]);
                assert(a[at] == whole[line.len() as int]);
            }
        }
        let head = t.take(k);
        assert forall|i: int| 0 <= i < head.len() implies !('0' <= #[trigger] head[i] <= '9') by {
            assert(head[i] == t[i]);
            assert(t[i] == a[i]);
            assert(a[i] == whole[i + gap]);
            assert(whole[i + gap] == line[i + gap]);
        }
        let h1 = text::trim(head);
        let h2 = unbulleted(h1);
        let h3 = text::trim(h2);
        lemma_trim_from(head);
        lemma_unbulleted_from(h1);
        lemma_trim_from(h2);
        assert forall|i: int| 0 <= i < h3.len() implies !('0' <= #[trigger] h3[i] <= '9') by {
            assert(h2.contains(h3[i]));
            let j = choose|j: int| 0 <= j < h2.len() && h2[j] == h3[i];
            assert(h1.contains(h2[j]));
            let m = choose|m: int| 0 <= m < h1.len() && h1[m] == h2[j];
            assert(head.contains(h1[m]));
            let p = choose|p: int| 0 <= p < head.len() && head[p] == h1[m];
            assert(!('0' <= head[p] <= '9'));
        }
        let digits = if h3.len() > 0 && h3[0] == '+' {
            h3.drop_first()
        } else {
            h3
        };
        if digits.len() > 0 && text::all_digits(digits) {
            assert(text::is_digit(digits[0]));
            if h3[0] == '+' {
                assert(digits[0] == h3[1]);
            }
        }
    }
}

proof fn lemma_unbulleted_from(s: Seq<char>)
    ensures
        forall|i: int|
            #![trigger unbulleted(s)[i]]
            0 <= i < unbulleted(s).len() ==> s.contains(unbulleted(s)[i]),
    decreases s.len(),
{
    if s.len() > 0 && bullet(s[0]) {
        let rest = s.drop_first();
        lemma_unbulleted_from(rest);
        assert forall|i: int| #![trigger unbulleted(s)[i]] 0 <= i < unbulleted(s).len() implies s.contains(
            unbulleted(s)[i],
        ) by {
            assert(rest.contains(unbulleted(rest)[i]));
            let j = choose|j: int| 0 <= j < rest.len() && rest[j] == unbulleted(rest)[i];
            assert(s[j + 1] == rest[j]);
        }
    } else {
        assert forall|i: int| #![trigger unbulleted(s)[i]] 0 <= i < unbulleted(s).len() implies s.contains(
            unbulleted(s)[i],
        ) by {
            assert(s[i] == unbulleted(s)[i]);
        }
    }
}

proof fn lemma_unbulleted_run(bullets: Seq<char>, rest: Seq<char>)
    requires
        forall|i: int| 0 <= i < bullets.len() ==> bullet(#[trigger] bullets[i]),
        rest.len() > 0 && !bullet(rest[0]),
    ensures
        unbulleted(bullets + rest) == rest,
    decreases bullets.len(),
{
    let all = bullets + rest;
    if bullets.len() > 0 {
        assert(all[0] == bullets[0]);
        assert(all.drop_first() =~= bullets.drop_first() + rest);
        lemma_unbulleted_run(bullets.drop_first(), rest);
    } else {
        assert(all =~= rest);
    }
}

proof fn lemma_bulleted(n: usize, s: Seq<char>, bullets: Seq<char>)
    requires
        bullets.len() > 0,
        forall|i: int|
            0 <= i < bullets.len() ==> seq!['-', '*', '•'].contains(#[trigger] bullets[i]),
    ensures
        line_entry(bullets + seq![' '] + numbered(n as nat, s)) == Some((n, text::trim(s))),
{
    let marks = seq!['-', '*', '•'];
    assert forall|i: int| 0 <= i < bullets.len() implies bullet(#[trigger] bullets[i]) by {
        assert(marks.contains(bullets[i]));
        assert(marks[0] == '-' && marks[1] == '*' && marks[2] == '•');
    }
    let d = text::decimal(n as nat);
    let b = bullets.len() as int;
    let k = d.len() as int + b + 1;
    text::decimal_reads_back(n as nat, usize::MAX as nat);
    let rest = seq![' '] + d;
    let front = bullets + rest;
    let head = front + seq![MARKER];
    let tail = seq![' '] + s;
    let line = bullets + seq![' '] + numbered(n as nat, s);
    assert(line =~= head + tail);
    assert(line[0] == bullets[0]);
    assert(!text::white(line[0]));
    assert(text::trim_start(line) == line);
    text::lemma_trim_end_add(head, tail);
    let t = text::trim(line);
    assert(t == head + text::trim_end(tail));
    assert forall|i: int| 0 <= i < k implies #[trigger] t[i] != MARKER by {
        assert(t[i] == front[i]);
        if i < b {
            assert(front[i] == bullets[i]);
        } else if i > b {
            assert(front[i] == d[i - b - 1]);
            assert(text::is_digit(d[i - b - 1]));
        }
    }
    assert(t[k] == MARKER);
    text::lemma_first_index(t, MARKER, k);
    assert(t.take(k) =~= front);
    assert(t.skip(k + 1) =~= text::trim_end(tail));
    assert(text::is_digit(d[0]));
    assert(text::is_digit(d[d.len() - 1]));
    assert(front[0] == bullets[0]);
    assert(front.last() == d.last());
    text::lemma_trim_fixed(front);
    lemma_unbulleted_run(bullets, rest);
    assert(rest.drop_first() =~= d);
    assert(text::trim_start(rest) == text::trim_start(d));
    text::lemma_trim_fixed(d);
    assert(text::trim(rest) == d);
    assert(index_in(front) == Some(n as nat));
    text::lemma_trim_either_order(tail);
    assert(tail.drop_first() =~= s);
    assert(text::trim_start(tail) == text::trim_start(s));
    let u = text::trim_start(text::trim_end(tail));
    assert(u == text::trim(s));
    text::lemma_trim(s);
    text::lemma_trim_fixed(u);
}

/// A line says nothing where anything but a number, bullets and whitespace stands in front of
/// its marker: one word there, and it is passed over.
pub proof fn words_in_front_of_a_marker_say_nothing(line: Seq<char>, s: Seq<char>, i: int)
    requires
        0 <= i < line.len(),
        !text::white(line[i]),
        !seq!['-', '*', '•', '+'].contains(line[i]),
        !('0' <= line[i] <= '9'),
        forall|j: int| 0 <= j < line.len() ==> #[trigger] line[j] != '⟩',
    ensures
        line_entry(line + seq!['⟩'] + s) is None,
{
    let c = line[i];
    let marks = seq!['-', '*', '•', '+'];
    assert(marks[0] == '-' && marks[1] == '*' && marks[2] == '•' && marks[3] == '+');
    let whole = line + seq!['⟩'] + s;
    let t = text::trim(whole);
    let a = text::trim_start(whole);
    text::lemma_trim_start(whole);
    text::lemma_trim_end(a);
    let gap = whole.len() - a.len();
    assert(gap <= i) by {
        if gap > i {
            assert(whole.take(gap)[i] == c);
        }
    }
    let k = line.len() - gap;
    assert(a[k] == whole[line.len() as int]);
    assert(t.len() > k) by {
        if t.len() <= k {
            assert(a.skip(t.len() as int)[k - t.len()] == a[k]);
        }
    }
    assert(t[k] == a[k]);
    assert forall|j: int| 0 <= j < k implies #[trigger] t[j] != MARKER by {
        assert(t[j] == a[j]);
        assert(a[j] == whole[j + gap]);
        assert(whole[j + gap] == line[j + gap]);
    }
    text::lemma_first_index(t, MARKER, k);
    let head = t.take(k);
    assert(head[i - gap] == t[i - gap]);
    assert(t[i - gap] == a[i - gap]);
    assert(a[i - gap] == whole[i]);
    assert(head.contains(c));
    let h1 = text::trim(head);
    let h2 = unbulleted(h1);
    let h3 = text::trim(h2);
    lemma_trim_holds(head, c);
    lemma_unbulleted_holds(h1, c);
    lemma_trim_holds(h2, c);
    let at = choose|j: int| 0 <= j < h3.len() && h3[j] == c;
    if h3[0] == '+' {
        let digits = h3.drop_first();
        assert(digits[at - 1] == c);
        assert(!text::is_digit(digits[at - 1]));
    } else {
        assert(!text::is_digit(h3[at]));
    }
}

/// Trimming loses no character that is not whitespace.
proof fn lemma_trim_holds(s: Seq<char>, c: char)
    requires
        s.contains(c),
        !text::white(c),
    ensures
        text::trim(s).contains(c),
{
    let i = choose|i: int| 0 <= i < s.len() && s[i] == c;
    let a = text::trim_start(s);
    let t = text::trim(s);
    text::lemma_trim_start(s);
    text::lemma_trim_end(a);
    let gap = s.len() - a.len();
    if i < gap {
        assert(s.take(gap)[i] == c);
    } else {
        assert(a[i - gap] == c);
        if i - gap >= t.len() {
            assert(a.skip(t.len() as int)[i - gap - t.len()] == c);
        } else {
            assert(t[i - gap] == c);
        }
    }
}

proof fn lemma_unbulleted_holds(s: Seq<char>, c: char)
    requires
        s.contains(c),
        !bullet(c),
    ensures
        unbulleted(s).contains(c),
    decreases s.len(),
{
    if s.len() > 0 && bullet(s[0]) {
        let i = choose|i: int| 0 <= i < s.len() && s[i] == c;
        assert(s.drop_first()[i - 1] == c);
        lemma_unbulleted_holds(s.drop_first(), c);
    }
}

} // verus!
