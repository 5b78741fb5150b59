use riddle::json::{extract_assistant_text, json_quote, json_str_field, sse_delta_content};
use riddle::oracle::{
    choose_backend, Backend,
    http_error_message, persona_with_extra, pi_prompt_line, should_retry_with_completion_tokens,
    system_prompt, turn_text, HttpOracle, PiFeed, PiReader, SseReply, SseStep, TurnContext,
    MEMORY_PROTOCOL, PERSONA,
};
use riddle::parser::{Event, StreamParser};

fn ctx(lines: &[&str], ids: &[u64]) -> TurnContext {
    TurnContext {
        history: Vec::new(),
        catalog_lines: lines.iter().map(|s| s.to_string()).collect(),
        catalog_ids: ids.to_vec(),
    }
}

#[test]
fn string_fields_are_unescaped() {
    let line = r#"{"type":"message_update","x":"a\"b\\c\/d\te"}"#;
    assert_eq!(json_str_field(line, "type").as_deref(), Some("message_update"));
    assert_eq!(json_str_field(line, "x").as_deref(), Some("a\"b\\c/d\te"));
    assert_eq!(json_str_field(line, "missing"), None);
    // \uXXXX becomes its character; a lone surrogate is dropped.
    let u = r#"{"t":"D\u00e9j\u00e0 \u2014 \ud800!"}"#;
    assert_eq!(json_str_field(u, "t").as_deref(), Some("Déjà — !"));
    // An unterminated value runs to the end of the line.
    assert_eq!(json_str_field(r#"{"t":"open"#, "t").as_deref(), Some("open"));
}

#[test]
fn sse_content_escapes_decode() {
    let line = r#"{"choices":[{"delta":{"content":"Caf\u00e9 \u2026"}}]}"#;
    assert_eq!(sse_delta_content(line).as_deref(), Some("Café …"));
    // A content field outside the delta is not read.
    let other = r#"{"content":"no","choices":[{"delta":{}}]}"#;
    assert_eq!(sse_delta_content(other), None);
}

#[test]
fn assistant_text_reads_only_the_first_assistant_section() {
    let line = r#"{"type":"message_update","message":{"role":"assistant","content":[{"type":"text","text":"Hel"},{"type":"text","text":"lo\n"}]},"partial":{"role":"assistant","content":[{"type":"text","text":"Hel"}]}}"#;
    assert_eq!(extract_assistant_text(line).as_deref(), Some("Hello\n"));
    let user = r#"{"message":{"role":"user","content":[{"type":"text","text":"x"}]}}"#;
    assert_eq!(extract_assistant_text(user), None);
    let empty = r#"{"message":{"role":"assistant","content":[]}}"#;
    assert_eq!(extract_assistant_text(empty), None);
}

#[test]
fn turn_text_carries_the_catalog() {
    assert_eq!(turn_text(&ctx(&[], &[])), "Reply to what is written in the diary.");
    assert_eq!(
        turn_text(&ctx(&["1. a", "2. b"], &[9, 8])),
        "Memory catalog (newest first):\n1. a\n2. b\n\nReply to what is written in the diary."
    );
}

#[test]
fn persona_extra_is_trimmed_and_protocol_appended() {
    let p = persona_with_extra(Some("  Call me Ginny.  "));
    assert_eq!(p, format!("{PERSONA} Call me Ginny."));
    let bare = persona_with_extra(Some(" \n "));
    assert_eq!(bare, PERSONA);
    assert_eq!(system_prompt(None, true), format!("{PERSONA}{MEMORY_PROTOCOL}"));
    assert_eq!(system_prompt(None, false), PERSONA);
}

#[test]
fn http_settings_defaults() {
    let o = HttpOracle::new(String::from("k"), None, None, None, None, true);
    assert_eq!(o.base, "https://api.openai.com/v1");
    assert_eq!(o.model, "gpt-4o-mini");
    assert_eq!(o.max_tokens, 2000);
    assert!(o.reasoning.is_none());
    let o = HttpOracle::new(
        String::from("k"),
        Some(String::from("http://localhost:8080/v1//")),
        Some(String::from("llava")),
        Some(String::from("512")),
        Some(String::from("low")),
        false,
    );
    assert_eq!(o.base, "http://localhost:8080/v1");
    assert_eq!(o.model, "llava");
    assert_eq!(o.max_tokens, 512);
    assert_eq!(o.reasoning.as_deref(), Some("low"));
    let o = HttpOracle::new(String::from("k"), None, None, Some(String::from("lots")), None, false);
    assert_eq!(o.max_tokens, 2000);
}

#[test]
fn chat_request_body() {
    let o = HttpOracle::new(String::from("k"), None, Some(String::from("m")), None, Some(String::from("low")), false);
    let mut c = ctx(&[], &[]);
    c.history.push((String::from("t"), String::from("r")));
    let body = o.request_body(&c, None, "QUJD", "max_tokens");
    let want = format!(
        "{{\"model\":\"m\",\"stream\":true,\"max_tokens\":2000,\"reasoning_effort\":\"low\",\"messages\":[{{\"role\":\"system\",\"content\":{}}},{{\"role\":\"user\",\"content\":\"(an earlier page) t\"}},{{\"role\":\"assistant\",\"content\":\"r\"}},{{\"role\":\"user\",\"content\":[{{\"type\":\"text\",\"text\":\"Reply to what is written in the diary.\"}},{{\"type\":\"image_url\",\"image_url\":{{\"url\":\"data:image/png;base64,QUJD\"}}}}]}}]}}",
        json_quote(PERSONA)
    );
    assert_eq!(body, want);
    let retry = o.request_body(&c, None, "QUJD", "max_completion_tokens");
    assert!(retry.contains("\"max_completion_tokens\":2000"));
}

#[test]
fn pi_prompt_command() {
    let line = pi_prompt_line(&ctx(&[], &[]), "QUJD");
    assert_eq!(
        line,
        "{\"type\":\"prompt\",\"message\":\"Reply to what is written in the diary.\",\"images\":[{\"type\":\"image\",\"data\":\"QUJD\",\"mimeType\":\"image/png\"}]}\n"
    );
}

#[test]
fn http_errors_and_retry() {
    assert!(should_retry_with_completion_tokens(
        400,
        "Unsupported parameter: 'max_tokens'. Use 'max_completion_tokens' instead."
    ));
    assert!(!should_retry_with_completion_tokens(400, "bad request"));
    assert!(!should_retry_with_completion_tokens(401, "max_completion_tokens"));
    assert_eq!(http_error_message(401, "  invalid key \n"), "http 401: invalid key");
    assert_eq!(http_error_message(500, ""), "http 500: ");
}

#[test]
fn sse_stream_feeds_the_parser() {
    let mut r = SseReply::new(vec![77]);
    let feed = |r: &mut SseReply, line: &str| match r.feed_line(line) {
        SseStep::Done => None,
        SseStep::Events(ev) => Some(ev),
    };
    assert_eq!(feed(&mut r, ": keep-alive"), Some(vec![]));
    assert_eq!(feed(&mut r, r#"data: {"choices":[{"delta":{"role":"assistant"}}]}"#), Some(vec![]));
    let ev = feed(&mut r, r#"data: {"choices":[{"delta":{"content":"Who are you? I"}}]}"#).unwrap();
    assert_eq!(ev, vec![Ok(Event::Ink(String::from("Who are you?")))]);
    let ev = feed(&mut r, r#"  data:{"choices":[{"delta":{"content":" wonder \u2042 hi"}}]}  "#).unwrap();
    assert!(ev.is_empty());
    assert_eq!(feed(&mut r, "data: [DONE]"), None);
    let tail = r.finish();
    assert_eq!(
        tail,
        vec![Ok(Event::Ink(String::from("I wonder"))), Ok(Event::Transcript(String::from("hi")))]
    );
}

#[test]
fn pi_event_lines() {
    let mut pi = PiReader::new();
    assert!(matches!(pi.on_line("   "), PiFeed::Nothing));
    assert!(matches!(pi.on_line(r#"{"type":"agent_start"}"#), PiFeed::Nothing));
    let upd = r#"{"type":"message_update","message":{"role":"assistant","content":[{"type":"text","text":"Hi."}]}}"#;
    match pi.on_line(upd) {
        PiFeed::Running(t) => assert_eq!(t, "Hi."),
        _ => panic!("expected the running text"),
    }
    // A line without assistant text keeps the text so far.
    match pi.on_line(r#"{"type":"message_end","message":{"role":"user"}}"#) {
        PiFeed::Running(t) => assert_eq!(t, "Hi."),
        _ => panic!("expected the running text"),
    }
    match pi.on_line(r#"{"type":"agent_end","messages":[]}"#) {
        PiFeed::Finished(t) => assert_eq!(t, "Hi."),
        _ => panic!("expected the end of the turn"),
    }
    assert_eq!(pi.last_text, "");
}

#[test]
fn parser_error_messages() {
    let mut p = StreamParser::new(vec![1]);
    assert_eq!(p.advance("\u{27e6}show:1", true), vec![Err(String::from("unfinished conjuring directive"))]);
    let mut p = StreamParser::new(vec![1]);
    assert_eq!(
        p.advance("\u{27e6}Show: 7\u{27e7}", true),
        vec![Err(String::from("the diary lost that page (Show: 7)"))]
    );
    let mut p = StreamParser::new(vec![1]);
    assert_eq!(p.advance("  \n ", true), vec![Err(String::from("empty reply"))]);
    // A quoted reply loses its quotes; the postscript alone is no reply.
    let mut p = StreamParser::new(vec![]);
    assert_eq!(
        p.advance("\"Tell me.\" \u{2042} who", true),
        vec![Ok(Event::Ink(String::from("Tell me."))), Ok(Event::Transcript(String::from("who")))]
    );
    let mut p = StreamParser::new(vec![]);
    assert_eq!(
        p.advance("\u{2042} only words", true),
        vec![Ok(Event::Transcript(String::from("only words"))), Err(String::from("empty reply"))]
    );
}

#[test]
fn the_parser_takes_only_the_running_text() {
    let mut p = StreamParser::new(vec![]);
    assert!(p.accepts("Hello"));
    p.advance("Hello", false);
    assert!(p.accepts("Hello there."));
    assert!(!p.accepts("Help"));
    assert!(!p.accepts("Hell"));
}

#[test]
fn backend_choice() {
    assert_eq!(choose_backend(true, true), Backend::Http);
    assert_eq!(choose_backend(false, true), Backend::Ollama);
    assert_eq!(choose_backend(false, false), Backend::Pi);
}
