use ryu_subtitles::cues::{
    best_break, clean, cues_from_segments, normalize, render, speech_of, split_long, split_text, timestamp,
    window_fits, wrap, Cue, Format, Layout, CUE_GAP_MS, MAX_CUE_MS, MAX_LINES, MAX_LINE_CHARS,
    MIN_CUE_MS,
};
use ryu_subtitles::stt::TranscriptSegment;

fn seg(start_ms: u64, end_ms: u64, text: &str) -> TranscriptSegment {
    TranscriptSegment {
        start_ms,
        end_ms,
        text: text.to_string(),
    }
}

fn cue(start_ms: u64, end_ms: u64, text: &str) -> Cue {
    Cue {
        start_ms,
        end_ms,
        text: text.to_string(),
        translated: None,
    }
}

fn chars(s: &str) -> Vec<char> {
    s.chars().collect()
}

#[test]
fn segment_times_are_offset_onto_the_absolute_timeline() {
    let cues = cues_from_segments(60_000, &[seg(1_000, 3_000, "hello there")], "", 30_000);
    assert_eq!(cues.len(), 1);
    assert_eq!(cues[0].start_ms, 61_000);
    assert_eq!(cues[0].end_ms, 63_000);
}

#[test]
fn silence_markers_never_become_cues() {
    let cues = cues_from_segments(
        0,
        &[
            seg(0, 1_000, "[BLANK_AUDIO]"),
            seg(1_000, 2_000, "real speech"),
        ],
        "",
        30_000,
    );
    assert_eq!(cues.len(), 1);
    assert_eq!(cues[0].text, "real speech");
}

#[test]
fn a_window_with_text_but_no_segments_still_produces_a_cue() {
    let cues = cues_from_segments(5_000, &[], "something was said", 30_000);
    assert_eq!(cues.len(), 1);
    assert_eq!(cues[0].start_ms, 5_000);
    assert_eq!(cues[0].end_ms, 35_000);
}

#[test]
fn an_empty_window_produces_nothing() {
    assert!(cues_from_segments(0, &[], "   ", 30_000).is_empty());
    assert!(cues_from_segments(0, &[], "[BLANK_AUDIO]", 30_000).is_empty());
}

#[test]
fn a_long_segment_splits_at_sentence_ends_and_shares_its_span() {
    let long = "This is the first sentence and it runs on for a while. \
                This is the second sentence which also runs on for a while. \
                And here is a third one to be sure we exceed the budget.";
    let cues = cues_from_segments(0, &[seg(0, 12_000, long)], "", 30_000);
    assert!(cues.len() >= 2, "expected a split, got {}", cues.len());
    assert_eq!(cues[0].start_ms, 0);
    assert_eq!(cues.last().expect("last").end_ms, 12_000);
    for pair in cues.windows(2) {
        assert!(
            pair[0].end_ms <= pair[1].start_ms,
            "split cues must not overlap"
        );
    }
    for c in &cues {
        assert!(
            !c.text.ends_with(' ') && !c.text.starts_with(' '),
            "split text must be trimmed"
        );
    }
}

#[test]
fn normalize_removes_overlap_by_pulling_the_earlier_cue_in() {
    let cues = normalize(vec![cue(0, 5_000, "one"), cue(3_000, 6_000, "two")]);
    assert!(cues[0].end_ms <= cues[1].start_ms);
    assert_eq!(cues[1].start_ms, 3_000, "the later cue must not move");
}

#[test]
fn normalize_gives_a_flash_cue_the_minimum_screen_time() {
    let cues = normalize(vec![cue(1_000, 1_050, "hi")]);
    assert_eq!(cues[0].end_ms - cues[0].start_ms, MIN_CUE_MS);
}

#[test]
fn normalize_sorts_out_of_order_windows() {
    let cues = normalize(vec![cue(10_000, 12_000, "later"), cue(0, 2_000, "earlier")]);
    assert_eq!(cues[0].text, "earlier");
}

#[test]
fn srt_is_indexed_from_one_with_comma_milliseconds() {
    let out = render(
        &[cue(0, 1_500, "first"), cue(2_000, 3_000, "second")],
        Format::Srt,
        Layout::Source,
    );
    assert!(out.starts_with("1\n00:00:00,000 --> 00:00:01,500\nfirst\n\n"));
    assert!(out.contains("2\n00:00:02,000 --> 00:00:03,000\nsecond"));
}

#[test]
fn vtt_has_the_header_and_dot_milliseconds() {
    let out = render(&[cue(0, 1_500, "first")], Format::Vtt, Layout::Source);
    assert!(out.starts_with("WEBVTT\n\n"));
    assert!(out.contains("00:00:00.000 --> 00:00:01.500"));
    assert!(!out.contains(",500"));
}

#[test]
fn hours_roll_over_correctly() {
    assert_eq!(timestamp(3_723_456, ','), "01:02:03,456");
}

#[test]
fn translated_layout_renders_the_translation_and_bilingual_renders_both() {
    let c = Cue {
        start_ms: 0,
        end_ms: 1_000,
        text: "hello".into(),
        translated: Some("hola".into()),
    };
    assert!(render(&[c.clone()], Format::Srt, Layout::Translated).contains("hola"));
    assert!(!render(&[c.clone()], Format::Srt, Layout::Translated).contains("hello"));
    let both = render(&[c], Format::Srt, Layout::Bilingual);
    assert!(both.contains("hola\nhello"), "target above source: {both}");
}

#[test]
fn an_untranslated_cue_falls_back_to_its_source_text() {
    let out = render(&[cue(0, 1_000, "hello")], Format::Srt, Layout::Translated);
    assert!(out.contains("hello"));
}

#[test]
fn a_long_segment_renders_as_short_cues_of_at_most_two_lines() {
    let text = "word ".repeat(60);
    let cues = normalize(cues_from_segments(
        0,
        &[seg(0, 20_000, text.trim())],
        "",
        30_000,
    ));
    assert!(cues.len() > 1, "a 300-character segment must split");
    let out = render(&cues, Format::Srt, Layout::Source);
    for block in out.split("\n\n").filter(|b| !b.trim().is_empty()) {
        let body: Vec<&str> = block.lines().skip(2).collect();
        assert!(
            body.len() <= MAX_LINES,
            "{} lines in one cue: {block}",
            body.len()
        );
        for line in body {
            assert!(
                line.chars().count() <= MAX_LINE_CHARS,
                "line too long ({}): {line}",
                line.chars().count()
            );
        }
    }
}

#[test]
fn unbreakable_text_keeps_two_lines_rather_than_losing_words() {
    let text = "word ".repeat(30);
    let out = render(&[cue(0, 3_000, text.trim())], Format::Srt, Layout::Source);
    let body: Vec<&str> = out.lines().skip(2).take_while(|l| !l.is_empty()).collect();
    assert!(body.len() <= MAX_LINES, "got {} lines", body.len());
    assert_eq!(
        body.join(" ").split_whitespace().count(),
        30,
        "every word must survive the wrap"
    );
}

#[test]
fn multibyte_text_never_splits_mid_character() {
    let text = "日本語のテキストがとても長い場合".repeat(6);
    let parts = split_text(&text, 42);
    assert!(parts.len() > 1);
    assert_eq!(parts.concat().chars().count(), text.chars().count());
}

#[test]
fn format_parse_accepts_both_spellings_and_rejects_junk() {
    assert_eq!(Format::parse("SRT"), Some(Format::Srt));
    assert_eq!(Format::parse("webvtt"), Some(Format::Vtt));
    assert_eq!(Format::parse("ass"), None);
}

#[test]
fn the_limits_are_those_of_the_trade() {
    assert_eq!(MAX_LINE_CHARS, 42);
    assert_eq!(MAX_LINES, 2);
    assert_eq!(MAX_CUE_MS, 7_000);
    assert_eq!(MIN_CUE_MS, 800);
    assert_eq!(CUE_GAP_MS, 40);
}

#[test]
fn a_format_reads_back_from_its_extension() {
    assert_eq!(Format::Srt.extension(), "srt");
    assert_eq!(Format::Vtt.extension(), "vtt");
    assert_eq!(Format::parse(Format::Srt.extension()), Some(Format::Srt));
    assert_eq!(Format::parse(Format::Vtt.extension()), Some(Format::Vtt));
    assert_eq!(Format::parse("  SubRip "), Some(Format::Srt));
    assert_eq!(Format::Srt.content_type(), "application/x-subrip");
    assert_eq!(Format::Vtt.content_type(), "text/vtt");
    assert_eq!(Format::default(), Format::Srt);
    assert_eq!(Layout::default(), Layout::Translated);
}

#[test]
fn a_whole_srt_file() {
    let out = render(
        &[cue(0, 1_500, "first"), cue(2_000, 3_000, "second")],
        Format::Srt,
        Layout::Source,
    );
    assert_eq!(
        out,
        "1\n00:00:00,000 --> 00:00:01,500\nfirst\n\n2\n00:00:02,000 --> 00:00:03,000\nsecond\n\n"
    );
    assert_eq!(render(&[], Format::Srt, Layout::Source), "");
}

#[test]
fn a_whole_vtt_file() {
    let out = render(&[cue(0, 1_500, "first")], Format::Vtt, Layout::Source);
    assert_eq!(
        out,
        "WEBVTT\n\n00:00:00.000 --> 00:00:01.500\nfirst\n\n"
    );
}

#[test]
fn a_break_is_sought_at_a_sentence_then_a_clause_then_a_space() {
    assert_eq!(best_break(&chars("One. Two three, four"), 18), 5);
    assert_eq!(best_break(&chars("One two, three four"), 15), 9);
    assert_eq!(best_break(&chars("one two three four"), 10), 8);
    assert_eq!(best_break(&chars("abcdefghijklmnop"), 10), 10);
}

#[test]
fn the_last_sentence_end_wins_whatever_mark_it_has() {
    assert_eq!(best_break(&chars("One. Two? Three four five six"), 20), 10);
    assert_eq!(best_break(&chars("One? Two. Three four five six"), 20), 10);
}

#[test]
fn splitting_keeps_every_word() {
    let text = "a few words, then some more. And the rest of them, quite a lot!";
    let parts = split_text(text, 20);
    assert!(parts.iter().all(|p| p.chars().count() <= 20));
    let words: Vec<String> = parts
        .iter()
        .flat_map(|p| p.split_whitespace().map(str::to_string))
        .collect();
    let said: Vec<&str> = text.split_whitespace().collect();
    assert_eq!(words, said);
}

#[test]
fn wrapping_balances_over_two_lines_and_keeps_every_word() {
    let text = "one two three four five six seven eight nine ten eleven";
    let lines: String = wrap(&chars(text)).into_iter().collect();
    assert_eq!(lines.lines().count(), 2);
    assert_eq!(
        lines.split_whitespace().collect::<Vec<_>>(),
        text.split_whitespace().collect::<Vec<_>>()
    );
    let short: String = wrap(&chars("short")).into_iter().collect();
    assert_eq!(short, "short");
}

#[test]
fn cleaning_squeezes_whitespace_and_drops_markers() {
    assert_eq!(clean("  a \t b\nc  "), "a b c");
    assert_eq!(clean("[BLANK_AUDIO]"), "");
    assert_eq!(clean("   "), "");
}

#[test]
fn a_split_cue_shares_its_span_by_length() {
    let long = "aaaa ".repeat(40);
    let parts = split_long(&cue(1_000, 9_000, long.trim()));
    assert!(parts.len() > 1);
    assert_eq!(parts[0].start_ms, 1_000);
    assert_eq!(parts.last().expect("last").end_ms, 9_000);
    for pair in parts.windows(2) {
        assert_eq!(pair[0].end_ms, pair[1].start_ms);
    }
}

#[test]
fn a_cue_that_fits_is_not_split_however_long_it_lasts() {
    let parts = split_long(&cue(0, 30_000, "something was said"));
    assert_eq!(parts, vec![cue(0, 30_000, "something was said")]);
}

#[test]
fn normalizing_twice_changes_nothing() {
    let once = normalize(vec![
        cue(4_000, 4_010, "three"),
        cue(0, 5_000, "one"),
        cue(3_000, 3_900, "two"),
        cue(3_500, 3_600, "   "),
    ]);
    assert_eq!(once.len(), 3);
    assert_eq!(normalize(once.clone()), once);
}

#[test]
fn a_window_at_the_end_of_time_does_not_fit() {
    assert!(window_fits(0, &[seg(0, 1_000, "hello")], "", 30_000));
    assert!(!window_fits(u64::MAX, &[seg(1, 2, "hello")], "", 30_000));
}

#[test]
fn bare_punctuation_never_becomes_a_cue() {
    assert_eq!(cues_from_segments(0, &[seg(0, 1_000, "!")], "", 30_000), vec![]);
    assert_eq!(cues_from_segments(0, &[], " ?! , ", 30_000), vec![]);
    for noise in ["!", "?", ",", "--", ". . .", "...", "¿?", "「」。", "-"] {
        assert_eq!(speech_of(noise), "", "{noise} is nothing said");
        assert_eq!(cues_from_segments(0, &[seg(0, 900, noise)], "", 1_000), vec![]);
    }
    for said in ["Hi!", "5%", "♪", "A.", "— no —"] {
        assert_eq!(speech_of(said), said);
        assert_eq!(cues_from_segments(0, &[seg(0, 900, said)], "", 1_000).len(), 1);
    }
}

#[test]
fn two_lines_are_both_short_where_a_space_splits_the_text_so() {
    let text = format!("Hi. {}", vec!["word"; 14].join(" "));
    assert_eq!(text.chars().count(), 73);
    let lines: String = wrap(&chars(&text)).into_iter().collect();
    assert_eq!(lines.lines().count(), 2);
    assert!(lines.lines().all(|l| l.chars().count() <= MAX_LINE_CHARS));
    assert_eq!(
        lines.split_whitespace().collect::<Vec<_>>(),
        text.split_whitespace().collect::<Vec<_>>()
    );
    assert_eq!(
        lines,
        format!("Hi. {}\n{}", vec!["word"; 7].join(" "), vec!["word"; 7].join(" "))
    );
    // No space splits this one into two short lines: the second overflows.
    let long = format!("{} {} {}", "a".repeat(30), "b".repeat(30), "c".repeat(30));
    let lines: String = wrap(&chars(&long)).into_iter().collect();
    assert_eq!(
        lines,
        format!("{}\n{} {}", "a".repeat(30), "b".repeat(30), "c".repeat(30))
    );
}

#[test]
fn cues_that_appear_at_once_do_not_overlap() {
    let r = normalize(vec![cue(1_000, 2_000, "a"), cue(1_000, 3_000, "b")]);
    assert_eq!(r, vec![cue(1_000, 1_000, "a"), cue(1_000, 3_000, "b")]);
    assert!(r[0].end_ms <= r[1].start_ms);
    let next = normalize(vec![cue(1_000, 2_000, "a"), cue(1_001, 3_000, "b")]);
    assert_eq!((next[0].end_ms, next[1].start_ms), (1_001, 1_001));
    assert_eq!(normalize(r.clone()), r);
}

#[test]
fn a_timed_cue_that_stays_too_long_is_split() {
    let r = cues_from_segments(
        0,
        &[seg(0, 24_000, "One two. Three four. Five six.")],
        "",
        30_000,
    );
    assert_eq!(
        r,
        vec![
            cue(0, 6_620, "One two."),
            cue(6_620, 11_399, "Three"),
            cue(11_399, 16_179, "four."),
            cue(16_179, 20_089, "Five"),
            cue(20_089, 24_000, "six."),
        ]
    );
    assert!(r.iter().all(|c| c.end_ms - c.start_ms <= MAX_CUE_MS));
    assert!(normalize(r).iter().all(|c| c.end_ms - c.start_ms <= MAX_CUE_MS));
    // A sentence end that leaves no time to read is passed over for a word gap that does.
    let r = cues_from_segments(0, &[seg(0, 8_000, "I. then somebody came in and sat down")], "", 1);
    assert_eq!(r.len(), 2);
    assert_eq!(r[0].text, "I. then somebody");
    assert_eq!(r[1].text, "came in and sat down");
}

#[test]
fn what_is_short_enough_or_cannot_be_broken_stays_whole() {
    let whole = |end: u64, text: &str| cues_from_segments(0, &[seg(0, end, text)], "", 30_000);
    assert_eq!(whole(7_000, "one two three"), vec![cue(0, 7_000, "one two three")]);
    assert_eq!(whole(7_001, "one two three").len(), 2);
    assert_eq!(whole(20_000, "Aaaaaah!"), vec![cue(0, 20_000, "Aaaaaah!")]);
    // Without timings the one cue spans its window.
    assert_eq!(
        cues_from_segments(0, &[], "one two three", 30_000),
        vec![cue(0, 30_000, "one two three")]
    );
}

#[test]
fn a_second_line_that_is_short_enough_is_left_where_it_was_cut() {
    let text = format!("Hi. {}     {}", "a".repeat(20), "b".repeat(20));
    let lines: String = wrap(&chars(&text)).into_iter().collect();
    assert_eq!(lines, format!("Hi.\n{} {}", "a".repeat(20), "b".repeat(20)));
}
