use riddle::display::{qtfb_message, Display, PanelOp};
use riddle::pen::{
    decode_event, ink_radius, is_writing, map_to_screen, min_pressure, PenSample, PenState, Tool,
    DEFAULT_MIN_PRESSURE, EV_SIZE,
};
use riddle::qtfb::{
    init_message, init_reply_fields, input_event_of, request_full_refresh_message,
    set_refresh_mode_message, shm_large_enough, terminate_message, update_all_message,
    update_partial_message, INPUT_PEN_PRESS, MESSAGE_USERINPUT, REFRESH_MODE_CONTENT,
    REFRESH_MODE_UFAST,
};
use riddle::touch::TouchState;

fn le(v: i32) -> [u8; 4] {
    v.to_le_bytes()
}

#[test]
fn update_partial_message_layout() {
    let m = update_partial_message(10, -20, 300, 4000);
    assert_eq!(m.len(), 24);
    assert_eq!(m[0], 1);
    assert_eq!(&m[1..4], &[0, 0, 0]);
    assert_eq!(&m[4..8], &le(1));
    assert_eq!(&m[8..12], &le(10));
    assert_eq!(&m[12..16], &le(-20));
    assert_eq!(&m[16..20], &le(300));
    assert_eq!(&m[20..24], &le(4000));
}

#[test]
fn other_client_messages() {
    let init = init_message(0x01020304, 3);
    let mut want = vec![0u8; 24];
    want[4..8].copy_from_slice(&le(0x01020304));
    want[8] = 3;
    assert_eq!(init, want);

    let all = update_all_message();
    let mut want = vec![0u8; 24];
    want[0] = 1;
    assert_eq!(all, want);

    let mode = set_refresh_mode_message(REFRESH_MODE_CONTENT);
    let mut want = vec![0u8; 24];
    want[0] = 5;
    want[4..8].copy_from_slice(&le(3));
    assert_eq!(mode, want);

    let mut want = vec![0u8; 24];
    want[0] = 6;
    assert_eq!(request_full_refresh_message(), want);
    want[0] = 3;
    assert_eq!(terminate_message(), want);
}

#[test]
fn server_messages_decode() {
    let mut reply = [0u8; 32];
    reply[4..8].copy_from_slice(&le(-7));
    reply[8..12].copy_from_slice(&7_000_000u32.to_le_bytes());
    assert_eq!(init_reply_fields(&reply), (-7, 7_000_000));

    let mut buf = [0u8; 32];
    buf[0] = MESSAGE_USERINPUT;
    buf[4..8].copy_from_slice(&le(INPUT_PEN_PRESS));
    buf[8..12].copy_from_slice(&le(2));
    buf[12..16].copy_from_slice(&le(640));
    buf[16..20].copy_from_slice(&le(1024));
    buf[20..24].copy_from_slice(&le(-1));
    let ev = input_event_of(&buf, 32).unwrap();
    assert_eq!((ev.input_type, ev.dev_id, ev.x, ev.y, ev.d), (0x20, 2, 640, 1024, -1));
    // Too short, or not an input message: nothing.
    assert!(input_event_of(&buf, 23).is_none());
    buf[0] = 0;
    assert!(input_event_of(&buf, 32).is_none());
}

#[test]
fn shm_size_check() {
    assert!(shm_large_enough(1620 * 2160 * 2, 1620, 2160, 2));
    assert!(!shm_large_enough(1620 * 2160 * 2 - 1, 1620, 2160, 2));
}

#[test]
fn display_requests() {
    assert_eq!(
        Display::Qtfb.deghost(1, 2, 3, 4),
        vec![
            PanelOp::SetRefreshMode(REFRESH_MODE_CONTENT),
            PanelOp::Update { x: 1, y: 2, w: 3, h: 4 },
            PanelOp::SetRefreshMode(REFRESH_MODE_UFAST)
        ]
    );
    assert_eq!(
        Display::Quill.deghost(1, 2, 3, 4),
        vec![
            PanelOp::Swap { x: 1, y: 2, w: 3, h: 4, mode: 3, full: false },
            PanelOp::ProcessEvents
        ]
    );
    assert_eq!(Display::Qtfb.terminate(), vec![PanelOp::Terminate]);
    assert!(Display::Quill.terminate().is_empty());
    assert_eq!(
        Display::Quill.update(0, 0, 5, 5, true)[0],
        PanelOp::Swap { x: 0, y: 0, w: 5, h: 5, mode: 0, full: false }
    );
    assert_eq!(
        Display::Quill.full_refresh(1620, 2160)[0],
        PanelOp::Swap { x: 0, y: 0, w: 1620, h: 2160, mode: 4, full: true }
    );
    assert_eq!(Display::Qtfb.update_all(1620, 2160), vec![PanelOp::UpdateAll]);
    assert_eq!(Display::Qtfb.full_refresh(1620, 2160), vec![PanelOp::RequestFullRefresh]);
    assert_eq!(Display::Quill.pump(), vec![PanelOp::ProcessEvents]);
    assert!(Display::Qtfb.pump().is_empty());
    assert_eq!(
        qtfb_message(&PanelOp::Update { x: 1, y: 2, w: 3, h: 4 }),
        Some(update_partial_message(1, 2, 3, 4))
    );
    assert_eq!(qtfb_message(&PanelOp::ProcessEvents), None);
}

fn record(etype: u16, code: u16, value: i32) -> Vec<u8> {
    let mut r = vec![0u8; EV_SIZE];
    r[16..18].copy_from_slice(&etype.to_le_bytes());
    r[18..20].copy_from_slice(&code.to_le_bytes());
    r[20..24].copy_from_slice(&value.to_le_bytes());
    r
}

#[test]
fn pen_events_fold_into_samples() {
    let mut p = PenState::new();
    let events = [(3u16, 0u16, 5590i32), (3, 1, 7670), (3, 24, 2048), (1, 330, 1), (0, 0, 0)];
    let mut out: Vec<PenSample> = Vec::new();
    for &(t, c, v) in &events {
        let (t2, c2, v2) = decode_event(&record(t, c, v));
        assert_eq!((t2, c2, v2), (t, c, v));
        assert!(p.can_feed(t2, c2));
        if let Some(s) = p.feed(t2, c2, v2) {
            out.push(s);
        }
    }
    assert_eq!(out.len(), 1);
    let s = out[0];
    assert_eq!((s.x, s.y), map_to_screen(5590, 7670));
    assert_eq!((s.x, s.y), (809, 1079));
    assert_eq!(s.pressure, 2048);
    assert_eq!(s.tool, Tool::Pen);
    assert!(s.touching);
    // A second report with nothing new yields nothing.
    assert!(p.feed(0, 0, 0).is_none());
    // The eraser tip.
    p.feed(1, 321, 1);
    p.feed(3, 24, 100);
    let s = p.feed(0, 0, 0).unwrap();
    assert_eq!(s.tool, Tool::Eraser);
    p.feed(1, 321, 0);
    p.feed(1, 330, 0);
    let s = p.feed(0, 0, 0).unwrap();
    assert_eq!(s.tool, Tool::Pen);
    assert!(!s.touching);
}

#[test]
fn pen_mapping_and_thresholds() {
    assert_eq!(map_to_screen(0, 0), (0, 0));
    assert_eq!(map_to_screen(11180, 15340), (1619, 2159));
    assert_eq!(map_to_screen(-11180, -1), (-1619, 0));
    assert_eq!(min_pressure(None), DEFAULT_MIN_PRESSURE);
    assert_eq!(min_pressure(Some("120")), 120);
    assert_eq!(min_pressure(Some("+7")), 7);
    assert_eq!(min_pressure(Some("lots")), 40);
    assert_eq!(min_pressure(Some("99999999999")), 40);
    let s = PenSample { x: 0, y: 0, pressure: 41, tool: Tool::Pen, touching: true };
    assert!(is_writing(&s, 40));
    assert!(!is_writing(&s, 41));
    assert_eq!(ink_radius(0), 2);
    assert_eq!(ink_radius(2048), 3);
    assert_eq!(ink_radius(4096), 5);
}

#[test]
fn five_fingers_quit() {
    let mut t = TouchState::new();
    let mut quit = false;
    for slot in 0..4 {
        t.feed(3, 47, slot);
        quit |= t.feed(3, 57, 100 + slot);
    }
    assert!(!quit);
    // Slot numbers beyond the last are clamped onto it.
    t.feed(3, 47, 99);
    assert_eq!(t.cur, 15);
    assert!(t.feed(3, 57, 7));
    // Lifting a finger leaves four.
    assert!(!t.feed(3, 57, -1));
    t.feed(3, 47, -3);
    assert_eq!(t.cur, 0);
}
