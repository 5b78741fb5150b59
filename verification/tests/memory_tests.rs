use riddle::calendar::spoken_date;
use riddle::memory::{index_line, index_text, memory_enabled, MemoryStore, MAX_MEMORIES};
use riddle::strokes::{decimate, parse_strokes, strokes_text, Strokes};

#[test]
fn round_trip_and_reload() {
    // The index file and the strokes file are built in memory here: what
    // the store writes is read back by a fresh store.
    let mut s = MemoryStore::new(String::from("/tmp/riddle-mem-rt"), 0);
    let strokes: Strokes = vec![vec![(10, 20, 3), (14, 24, 3), (100, 120, 2)]];
    let forgotten = s.append(1751856000, "hello\ttom\nnewline", "Hello. Who writes?");
    assert!(forgotten.is_empty());
    let index = index_line(&s.entries[0]);
    let strokes_file = strokes_text(&decimate(&strokes));

    let mut s2 = MemoryStore::new(s.dir.clone(), 0);
    s2.load(&index);
    assert_eq!(s2.entries.len(), 1);
    assert_eq!(s2.entries[0].transcript, "hello\ttom\nnewline");
    assert_eq!(s2.entries[0].reply, "Hello. Who writes?");
    let back = parse_strokes(&strokes_file);
    assert_eq!(back.len(), 1);
    assert_eq!(back[0].first(), Some(&(10, 20, 3)));
    assert_eq!(back[0].last(), Some(&(100, 120, 2)));
}

#[test]
fn decimation_keeps_endpoints_drops_dense() {
    let dense: Strokes = vec![(0..100).map(|i| (i, 0, 3)).collect()];
    let thin = decimate(&dense);
    assert!(thin[0].len() < 40, "kept too many: {}", thin[0].len());
    assert_eq!(thin[0].first(), Some(&(0, 0, 3)));
    assert_eq!(thin[0].last(), Some(&(99, 0, 3)));
}

#[test]
fn prune_forgets_oldest() {
    let mut s = MemoryStore::new(String::from("/tmp/riddle-mem-prune"), 0);
    let mut forgotten = Vec::new();
    for i in 0..(MAX_MEMORIES + 5) as u64 {
        forgotten.extend(s.append(i + 1, "t", "r"));
    }
    assert_eq!(s.entries.len(), MAX_MEMORIES);
    assert_eq!(s.entries[0].id, 6);
    // The pages forgotten are exactly the five oldest; the sixth is kept.
    assert_eq!(forgotten, vec![1, 2, 3, 4, 5]);
    assert!(s.get(6).is_some());
    assert!(s.get(1).is_none());
}

#[test]
fn catalog_is_numbered_newest_first() {
    let mut s = MemoryStore::new(String::from("/tmp/riddle-mem-catalog"), 0);
    s.append(1751856000, "about the garden", "…");
    s.append(1751942400, "about the rain", "…");
    let (lines, ids) = s.catalog(10);
    assert_eq!(ids, vec![1751942400, 1751856000]);
    assert!(lines[0].starts_with("1. "));
    assert!(lines[0].contains("about the rain"));
    assert!(lines[1].contains("about the garden"));
}

#[test]
fn spoken_dates_read_like_a_diary() {
    // 2026-07-06 23:30 UTC.
    let s = spoken_date(1783467000, 0);
    assert!(s.contains("of July"), "{s}");
    assert!(s.contains("6th") || s.contains("7th"), "{s}");
}

// ---------------------------------------------------------------------------
// Further cases.
// ---------------------------------------------------------------------------

#[test]
fn spoken_date_exact_wording() {
    // 2026-07-07 23:30 UTC.
    assert_eq!(spoken_date(1783467000, 0), "the 7th of July, late at night");
    // Two hours east of UTC it is already the small hours of the 8th.
    assert_eq!(spoken_date(1783467000, 7200), "the 8th of July, in the small hours");
    assert_eq!(spoken_date(0, 0), "the 1st of January, in the small hours");
    // 1970-01-02 09:00: the 2nd, in the morning.
    assert_eq!(spoken_date(86400 + 9 * 3600, 0), "the 2nd of January, in the morning");
    // The 11th to 13th take "th".
    assert_eq!(spoken_date(10 * 86400 + 13 * 3600, 0), "the 11th of January, in the afternoon");
    assert_eq!(spoken_date(22 * 86400 + 19 * 3600, 0), "the 23rd of January, in the evening");
}

#[test]
fn index_round_trip_of_several_pages() {
    let mut s = MemoryStore::new(String::new(), 0);
    s.append(1, "first\\page", "reply\twith tab");
    s.append(2, "", "a reply only");
    s.append(3, "third\nline", "");
    let text = index_text(&s.entries);
    assert_eq!(
        text,
        "1\tfirst\\\\page\treply\\twith tab\n2\t\ta reply only\n3\tthird\\nline\t\n"
    );
    let mut back = MemoryStore::new(String::new(), 0);
    back.load(&text);
    assert_eq!(back.entries.len(), 3);
    for (a, b) in back.entries.iter().zip(s.entries.iter()) {
        assert_eq!(a.id, b.id);
        assert_eq!(a.transcript, b.transcript);
        assert_eq!(a.reply, b.reply);
    }
}

#[test]
fn load_skips_malformed_lines_and_keeps_crlf_lines() {
    let mut s = MemoryStore::new(String::new(), 0);
    s.load("x\tbad id\tr\nonly one tab\t\n7\tok\tfine\r\n99999999999999999999\ttoo\tbig\n");
    assert_eq!(s.entries.len(), 1);
    assert_eq!(s.entries[0].id, 7);
    assert_eq!(s.entries[0].transcript, "ok");
    assert_eq!(s.entries[0].reply, "fine");
}

#[test]
fn paths_join_like_path_join() {
    let s = MemoryStore::new(String::from("/home/root/riddle-data/memories"), 0);
    assert_eq!(s.index_path(), "/home/root/riddle-data/memories/index.tsv");
    assert_eq!(s.strokes_path(1751856000), "/home/root/riddle-data/memories/1751856000.strokes");
    let t = MemoryStore::new(String::from("dir/"), 0);
    assert_eq!(t.index_path(), "dir/index.tsv");
    let u = MemoryStore::new(String::new(), 0);
    assert_eq!(u.strokes_path(5), "5.strokes");
}

#[test]
fn catalog_gist_and_limit() {
    let mut s = MemoryStore::new(String::new(), 0);
    s.append(0, "  \n\t ", "Who\n  writes   to me?");
    s.append(86400, "a  long\nline", "r");
    let (lines, ids) = s.catalog(1);
    assert_eq!(ids, vec![86400]);
    assert_eq!(lines, vec![String::from("1. the 2nd of January, in the small hours \u{2014} a long line")]);
    let (lines, ids) = s.catalog(5);
    assert_eq!(ids, vec![86400, 0]);
    assert_eq!(
        lines[1],
        "2. the 1st of January, in the small hours \u{2014} (reply: Who writes to me?)"
    );
    assert!(lines.iter().all(|l| !l.contains('\n')));
    let (none, no_ids) = s.catalog(0);
    assert!(none.is_empty() && no_ids.is_empty());
}

#[test]
fn one_line_caps_at_seventy_chars() {
    let long = "word ".repeat(30);
    let mut s = MemoryStore::new(String::new(), 0);
    s.append(0, &long, "r");
    let (lines, _) = s.catalog(1);
    let gist = lines[0].split(" \u{2014} ").nth(1).unwrap();
    assert_eq!(gist.chars().count(), 70);
    assert!(gist.starts_with("word word"));
}

#[test]
fn recent_dialogue_skips_blank_transcripts() {
    let mut s = MemoryStore::new(String::new(), 0);
    s.append(1, "one", "r1");
    s.append(2, "", "r2");
    s.append(3, "three", "r3");
    s.append(4, "four", "r4");
    assert_eq!(
        s.recent_dialogue(3),
        vec![
            (String::from("three"), String::from("r3")),
            (String::from("four"), String::from("r4"))
        ]
    );
    assert_eq!(s.recent_dialogue(10).len(), 3);
    assert!(s.recent_dialogue(0).is_empty());
}

#[test]
fn get_finds_first_with_id() {
    let mut s = MemoryStore::new(String::new(), 0);
    s.append(5, "a", "x");
    s.append(5, "b", "y");
    assert_eq!(s.get(5).map(|e| e.transcript.clone()), Some(String::from("a")));
    assert!(s.get(6).is_none());
}

#[test]
fn memory_can_be_turned_off() {
    assert!(memory_enabled(None));
    assert!(memory_enabled(Some("on")));
    assert!(memory_enabled(Some("OFF")));
    for off in ["off", "0", "no", "false"] {
        assert!(!memory_enabled(Some(off)));
    }
}
