use ryu_subtitles::cues::Cue;
use ryu_subtitles::languages::find;
use ryu_subtitles::translate::{
    completion_of, parse_reply, read_completion, render_batch, single_line_fallback,
    system_prompt, GatewayConfig, GatewayEnv, Phase, Session, BATCH, DEFAULT_GATEWAY_URL,
    DEFAULT_MODEL,
};

fn cue(text: &str) -> Cue {
    Cue {
        start_ms: 0,
        end_ms: 1_000,
        text: text.to_string(),
        translated: None,
    }
}

fn no_env() -> GatewayEnv {
    GatewayEnv {
        url: None,
        token: None,
        model: None,
    }
}

fn many(n: usize) -> Vec<Cue> {
    (0..n).map(|i| cue(&format!("line {i}"))).collect()
}

#[test]
fn batches_are_numbered_from_their_absolute_position() {
    let cues = vec![cue("one"), cue("two")];
    let rendered = render_batch(&cues, 50);
    assert_eq!(rendered, "51⟩ one\n52⟩ two");
}

#[test]
fn newlines_inside_a_cue_are_flattened_so_one_cue_is_one_line() {
    let rendered = render_batch(&[cue("first\nsecond")], 0);
    assert_eq!(rendered.lines().count(), 1);
    assert_eq!(rendered, "1⟩ first second");
}

#[test]
fn reply_parsing_is_by_index_not_position() {
    let got = parse_reply("3⟩ tres\n1⟩ uno\n");
    assert_eq!(got.get(&1).map(String::as_str), Some("uno"));
    assert_eq!(got.get(&3).map(String::as_str), Some("tres"));
    assert!(!got.contains_key(&2));
}

#[test]
fn chatty_preamble_and_code_fences_are_ignored() {
    let got = parse_reply("Sure! Here are the lines:\n```\n1⟩ hola\n```\nLet me know!");
    assert_eq!(got.len(), 1);
    assert_eq!(got.get(&1).map(String::as_str), Some("hola"));
}

#[test]
fn bulleted_numbering_still_parses() {
    let got = parse_reply("- 1⟩ hola\n* 2⟩ adios");
    assert_eq!(got.len(), 2);
}

#[test]
fn empty_translations_are_not_recorded() {
    let got = parse_reply("1⟩   \n2⟩ real");
    assert!(!got.contains_key(&1));
    assert!(got.contains_key(&2));
}

#[test]
fn a_line_that_legitimately_starts_with_a_number_is_not_confused_for_an_index() {
    let got = parse_reply("1⟩ 1984 was a good year");
    assert_eq!(got.get(&1).map(String::as_str), Some("1984 was a good year"));
}

#[test]
fn single_line_fallback_takes_the_first_real_line() {
    assert_eq!(
        single_line_fallback("```\nhola mundo\n```"),
        Some("hola mundo".to_string())
    );
    assert_eq!(single_line_fallback("   \n\n"), None);
}

#[test]
fn the_prompt_names_the_language_unambiguously() {
    let pt = find("pt-BR").expect("pt-BR");
    let prompt = system_prompt(&pt);
    assert!(prompt.contains("Brazilian Portuguese"));
    assert!(prompt.contains("Português (Brasil)"));
}

#[test]
fn gateway_config_prefers_an_explicit_model_over_the_bundled_default() {
    let explicit = GatewayConfig::from_env(Some("qwen3-4b".into()), no_env());
    assert_eq!(explicit.model, "qwen3-4b");
    let blank = GatewayConfig::from_env(Some("   ".into()), no_env());
    assert!(!blank.model.is_empty(), "blank must fall through, not stick");
    assert_eq!(blank.model, DEFAULT_MODEL);
}

#[test]
fn the_gateway_is_the_local_one_unless_told_otherwise() {
    let bare = GatewayConfig::from_env(None, no_env());
    assert_eq!(bare.url, DEFAULT_GATEWAY_URL);
    assert_eq!(bare.token, None);
    assert_eq!(bare.model, DEFAULT_MODEL);
    assert_eq!(bare.bearer(), "ryu-local");
    assert_eq!(
        bare.completions_url(),
        "http://127.0.0.1:7981/v1/chat/completions"
    );
    let set = GatewayConfig::from_env(
        None,
        GatewayEnv {
            url: Some(" http://g/ ".to_string()),
            token: Some(" t ".to_string()),
            model: Some("m".to_string()),
        },
    );
    assert_eq!(set.completions_url(), "http://g/v1/chat/completions");
    assert_eq!(set.bearer(), "t");
    assert_eq!(set.model, "m");
}

#[test]
fn a_request_reads_back_as_what_was_asked() {
    let cues = vec![cue("one"), cue("two\nlines"), cue("three")];
    let got = parse_reply(&render_batch(&cues, 7));
    assert_eq!(got.len(), 3);
    assert_eq!(got.get(&8).map(String::as_str), Some("one"));
    assert_eq!(got.get(&9).map(String::as_str), Some("two lines"));
    assert_eq!(got.get(&10).map(String::as_str), Some("three"));
}

#[test]
fn a_fallback_is_only_for_replies_without_numbers() {
    assert_eq!(single_line_fallback("7⟩ siete"), None);
    assert_eq!(single_line_fallback("\n  hola  \nadios"), Some("hola".to_string()));
}

#[test]
fn a_session_translates_batch_by_batch() {
    let mut session = Session::start(many(BATCH + 2));
    let first = session.request().expect("first batch");
    assert_eq!(first.lines().count(), BATCH);
    assert_eq!(session.reply(Some(&first)), Some((BATCH, BATCH + 2)));
    let second = session.request().expect("second batch");
    assert_eq!(second, "26⟩ line 25\n27⟩ line 26");
    assert_eq!(session.reply(Some("27⟩ veintisiete\n26⟩ veintiseis")), Some((27, 27)));
    assert_eq!(session.phase, Phase::Finished);
    assert_eq!(session.request(), None);
    assert_eq!(session.translated, 27);
    assert_eq!(session.cues[25].translated.as_deref(), Some("veintiseis"));
    assert_eq!(session.cues[26].translated.as_deref(), Some("veintisiete"));
    assert_eq!(session.cues[0].text, "line 0");
}

#[test]
fn a_line_that_did_not_come_back_is_asked_for_alone() {
    let mut session = Session::start(many(3));
    assert_eq!(session.reply(Some("1⟩ uno\n3⟩ tres")), None);
    assert_eq!(session.phase, Phase::Single(1));
    assert_eq!(session.request(), Some("2⟩ line 1".to_string()));
    assert_eq!(session.reply(Some("dos")), Some((3, 3)));
    assert_eq!(session.cues[1].translated.as_deref(), Some("dos"));
    assert_eq!(session.translated, 3);
}

#[test]
fn a_line_that_still_fails_keeps_its_own_words() {
    let mut session = Session::start(many(2));
    assert_eq!(session.reply(None), None);
    assert_eq!(session.reply(None), None);
    assert_eq!(session.reply(Some("2⟩ dos")), Some((2, 2)));
    assert_eq!(session.phase, Phase::Finished);
    assert_eq!(session.cues[0].translated, None);
    assert_eq!(session.cues[0].text, "line 0");
    assert_eq!(session.translated, 1);
}

#[test]
fn completions_are_read_out_of_their_json() {
    let body = r#"{"choices":[{"message":{"content":"1⟩ hola"}}]}"#;
    assert_eq!(read_completion(true, "200 OK", body), Ok("1⟩ hola".to_string()));
    assert_eq!(
        read_completion(true, "200 OK", r#"{"choices":[]}"#),
        Err("the gateway returned an empty completion".to_string())
    );
    assert_eq!(
        read_completion(true, "200 OK", r#"{"choices":{"0":{"message":{"content":"x"}}}}"#),
        Err("the gateway returned an empty completion".to_string())
    );
    assert!(read_completion(true, "200 OK", "nonsense").is_err());
    assert_eq!(
        read_completion(false, "502 Bad Gateway", "down"),
        Err("gateway 502 Bad Gateway: down".to_string())
    );
    let long = "x".repeat(500);
    assert_eq!(
        read_completion(false, "500", &long),
        Err(format!("gateway 500: {}", "x".repeat(400)))
    );
    assert_eq!(completion_of(Ok(Some(" a ".to_string()))), Ok(" a ".to_string()));
    assert_eq!(
        completion_of(Ok(Some("  ".to_string()))),
        Err("the gateway returned an empty completion".to_string())
    );
    assert_eq!(completion_of(Err("bad".to_string())), Err("bad".to_string()));
}
