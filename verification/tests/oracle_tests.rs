use riddle::json::{base64, json_quote, sse_delta_content};
use riddle::parser::{clean, strip_directives, Event, StreamParser};

#[test]
fn sse_delta_extraction() {
    let line = r#"{"choices":[{"delta":{"content":"Hello"},"index":0}]}"#;
    assert_eq!(sse_delta_content(line).as_deref(), Some("Hello"));
    // role-only delta (first SSE frame) has no content.
    let role = r#"{"choices":[{"delta":{"role":"assistant"},"index":0}]}"#;
    assert_eq!(sse_delta_content(role), None);
}

#[test]
fn sse_decodes_unicode_and_escapes() {
    // OpenAI escapes accents and em-dashes; the diary answers in French.
    let line = r#"{"choices":[{"delta":{"content":"Déjà vu — oui"}}]}"#;
    assert_eq!(sse_delta_content(line).as_deref(), Some("Déjà vu — oui"));
    let nl = r#"{"choices":[{"delta":{"content":"line\nbreak"}}]}"#;
    assert_eq!(sse_delta_content(nl).as_deref(), Some("line\nbreak"));
}

#[test]
fn base64_matches_known_vector() {
    assert_eq!(base64(b""), "");
    assert_eq!(base64(b"f"), "Zg==");
    assert_eq!(base64(b"fo"), "Zm8=");
    assert_eq!(base64(b"foo"), "Zm9v");
    assert_eq!(base64(b"foobar"), "Zm9vYmFy");
}

#[test]
fn clean_strips_wrapping_quotes() {
    assert_eq!(clean("  \"hello\"  "), "hello");
    assert_eq!(clean("plain"), "plain");
}

fn drain(events: Vec<Result<Event, String>>) -> Vec<Event> {
    events.into_iter().map(|e| e.unwrap()).collect()
}

#[test]
fn parser_streams_prose_then_transcript() {
    let mut p = StreamParser::new(vec![]);
    assert!(p.advance("Hello", false).is_empty());
    let ev = drain(p.advance("Hello. Who wri", false));
    assert_eq!(ev, vec![Event::Ink("Hello.".into())]);
    let full = "Hello. Who writes to me? \u{2042} it rained all night";
    let ev = drain(p.advance(full, true));
    assert_eq!(
        ev,
        vec![
            Event::Ink("Who writes to me?".into()),
            Event::Transcript("it rained all night".into())
        ]
    );
}

#[test]
fn parser_routes_show_directive() {
    let mut p = StreamParser::new(vec![900, 800, 700]);
    // Directive still streaming in: no decision yet.
    assert!(p.advance("\u{27e6}sho", false).is_empty());
    let ev = drain(p.advance("\u{27e6}show:2\u{27e7}", false));
    assert_eq!(ev, vec![Event::Show(800)]);
    let full = "\u{27e6}show:2\u{27e7}\n\u{2042} show me the garden page";
    let ev = drain(p.advance(full, true));
    assert_eq!(ev, vec![Event::Transcript("show me the garden page".into())]);
}

#[test]
fn parser_show_tolerates_spacing_and_case() {
    let mut p = StreamParser::new(vec![42]);
    let ev = drain(p.advance("  \u{27e6}Show: 1\u{27e7}", true));
    assert!(ev.contains(&Event::Show(42)), "{ev:?}");
}

#[test]
fn parser_show_out_of_range_is_error() {
    let mut p = StreamParser::new(vec![42]);
    let ev = p.advance("\u{27e6}show:7\u{27e7}", true);
    assert!(ev[0].is_err());
}

#[test]
fn parser_empty_reply_is_error() {
    let mut p = StreamParser::new(vec![]);
    let ev = p.advance("", true);
    assert!(ev[0].is_err());
}

#[test]
fn parser_without_sentinel_still_flushes() {
    // Memory off (or model forgot the postscript): plain prose still works.
    let mut p = StreamParser::new(vec![]);
    let ev = drain(p.advance("A reply without postscript", true));
    assert_eq!(ev, vec![Event::Ink("A reply without postscript".into())]);
}

#[test]
fn parser_leading_directive_conjures_and_takes_the_whole_body() {
    let mut p = StreamParser::new(vec![900, 800]);
    let full = "\u{27e6}show:2\u{27e7}\n\u{2042} show me the rain";
    let ev = drain(p.advance(full, true));
    assert_eq!(
        ev,
        vec![Event::Show(800), Event::Transcript("show me the rain".into())]
    );
}

#[test]
fn parser_directive_after_prose_is_stripped_not_inked() {
    // A misbehaving model prefaces the directive with prose. It is not
    // honored, but the ⟦…⟧ must not be rendered as literal glyphs either.
    let mut p = StreamParser::new(vec![900, 800]);
    let full = "Of course, let me show you. \u{27e6}show:2\u{27e7}\n\u{2042} show me the rain";
    let ev = drain(p.advance(full, true));
    assert_eq!(
        ev,
        vec![
            Event::Ink("Of course, let me show you.".into()),
            Event::Transcript("show me the rain".into())
        ]
    );
    // The show glyphs never reached the writer.
    assert!(!ev.iter().any(|e| matches!(e, Event::Ink(s) if s.contains('\u{27e6}'))));
}

#[test]
fn strip_directives_removes_spans() {
    assert_eq!(strip_directives("a \u{27e6}show:1\u{27e7} b"), "a b");
    assert_eq!(strip_directives("plain text"), "plain text");
    assert_eq!(strip_directives("tail \u{27e6}show:2"), "tail");
}

#[test]
fn json_quote_escapes_control_chars() {
    // A tabbed, multiline transcript must not produce raw C0 bytes.
    let q = json_quote("a\tb\r\nc\u{0007}d");
    assert_eq!(q, "\"a\\tb\\r\\nc\\u0007d\"");
    assert!(!q.chars().any(|c| (c as u32) < 0x20));
}
