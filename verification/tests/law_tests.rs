use riddle::parser::{Event, StreamParser};
use riddle::calendar::civil;
use riddle::json::{base64, json_quote, json_str_field};
use riddle::strokes::{decimate, parse_strokes, strokes_text, Strokes};

#[test]
fn strokes_file_format_and_reading_back() {
    let s: Strokes = vec![vec![(1, -2, 3), (40, 50, 2)], vec![(7, 8, 1)]];
    let text = strokes_text(&s);
    assert_eq!(text, "1,-2,3;40,50,2\n7,8,1\n");
    assert_eq!(parse_strokes(&text), s);
    // Malformed points are skipped, strokes left empty are dropped.
    let messy = "1,2,3;x,y,z;4,5\n\n;;\n9,9,9,9;+6,7,8\r\n";
    assert_eq!(parse_strokes(messy), vec![vec![(1, 2, 3)], vec![(9, 9, 9), (6, 7, 8)]]);
}

#[test]
fn decimated_strokes_round_trip() {
    let dense: Strokes = vec![(0..10).map(|i| (i, i, 2)).collect(), vec![]];
    let thin = decimate(&dense);
    assert_eq!(thin, vec![vec![(0, 0, 2), (3, 3, 2), (6, 6, 2), (9, 9, 2)]]);
    assert_eq!(parse_strokes(&strokes_text(&thin)), thin);
}

#[test]
fn quoted_text_reads_back_as_field() {
    let text = "tab\there \"quoted\" back\\slash\nbell\u{7} é";
    let line = format!("{{\"k\":{},\"z\":1}}", json_quote(text));
    assert_eq!(json_str_field(&line, "k").as_deref(), Some(text));
    assert!(json_quote(text).chars().all(|c| (c as u32) >= 0x20));
}

#[test]
fn base64_length_is_four_per_three_bytes() {
    for n in 0..10usize {
        let data: Vec<u8> = (0..n as u8).collect();
        assert_eq!(base64(&data).len(), (n + 2) / 3 * 4);
    }
    assert_eq!(base64(&[0xff, 0xfe, 0x00]), "//4A");
}

#[test]
fn civil_dates() {
    assert_eq!(civil(0), (1970, 1, 1, 0));
    assert_eq!(civil(951782400), (2000, 2, 29, 0));
    assert_eq!(civil(1783467000), (2026, 7, 7, 23));
    assert_eq!(civil(-1), (1969, 12, 31, 23));
    assert_eq!(civil(-86400 * 365), (1969, 1, 1, 0));
}

fn no_ws(s: &str) -> String {
    s.chars().filter(|c| !c.is_whitespace()).collect()
}

#[test]
fn ink_covers_the_body_however_split() {
    let full = "I was waiting. The ink dries slowly here! Do you write often?\n\u{2042} hello again ";
    let body = full.split('\u{2042}').next().unwrap();
    let splits: Vec<Vec<usize>> = vec![vec![], vec![3, 15, 20], (1..full.chars().count()).collect()];
    for cuts in splits {
        let chars: Vec<char> = full.chars().collect();
        let mut p = StreamParser::new(vec![]);
        let mut events = Vec::new();
        for &c in &cuts {
            let prefix: String = chars[..c].iter().collect();
            events.extend(p.advance(&prefix, false));
        }
        events.extend(p.advance(full, true));
        let events: Vec<Event> = events.into_iter().map(|e| e.unwrap()).collect();
        let (last, inks) = events.split_last().unwrap();
        assert_eq!(last, &Event::Transcript("hello again".into()));
        let mut ink = String::new();
        for e in inks {
            match e {
                Event::Ink(s) => ink.push_str(s),
                other => panic!("unexpected {other:?}"),
            }
        }
        assert_eq!(no_ws(&ink), no_ws(body));
    }
}

fn feed_in_pieces(ids: Vec<u64>, full: &str) -> Vec<Result<Event, String>> {
    let chars: Vec<char> = full.chars().collect();
    let mut p = StreamParser::new(ids);
    let mut events = Vec::new();
    for c in 1..chars.len() {
        let prefix: String = chars[..c].iter().collect();
        events.extend(p.advance(&prefix, false));
    }
    events.extend(p.advance(full, true));
    events
}

#[test]
fn conjuring_comes_first_and_names_the_directive_entry() {
    let events = feed_in_pieces(vec![900, 800], "  \u{27e6}Show: 2\u{27e7} and more words. \u{2042} show me the garden");
    assert_eq!(events[0], Ok(Event::Show(800)));
    assert!(events[1..].iter().all(|e| !matches!(e, Ok(Event::Show(_)))));
    assert_eq!(events.last().unwrap(), &Ok(Event::Transcript("show me the garden".into())));
    let lost = feed_in_pieces(vec![900, 800], "\u{27e6}show:5\u{27e7}");
    assert_eq!(lost[0], Err("the diary lost that page (show:5)".to_string()));
    assert!(lost.iter().all(|e| !matches!(e, Ok(Event::Show(_)))));
}

#[test]
fn ink_never_shows_directives_or_the_postscript_mark() {
    let events = feed_in_pieces(vec![7], "Hello there. \u{27e6}show:1\u{27e7} Goodbye now.\u{2042}  a note  ");
    let mut inks = 0;
    for e in &events {
        match e {
            Ok(Event::Ink(s)) => {
                inks += 1;
                assert!(!s.is_empty() && !s.contains('\u{27e6}') && !s.contains('\u{2042}'), "{s:?}");
            }
            Ok(Event::Transcript(t)) => assert_eq!(t, t.trim()),
            other => panic!("unexpected {other:?}"),
        }
    }
    assert!(inks > 0);
    assert_eq!(events.last().unwrap(), &Ok(Event::Transcript("a note".into())));
}
