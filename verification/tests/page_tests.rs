use riddle::diary::{TracedLine, WriteOp};
use riddle::page::{
    flush_due, grace_end, press_sleeps, OracleNews, Page, PageAction, Phase, SleepCycle, SleepStep,
};
use riddle::pen::{PenSample, Tool};
use riddle::qtfb::InputEvent;

fn sample(x: i32, y: i32, pressure: i32, touching: bool) -> PenSample {
    PenSample { x, y, pressure, tool: Tool::Pen, touching }
}

fn one_line() -> Vec<TracedLine> {
    vec![TracedLine { width: 1620, strokes: vec![vec![(0, 0), (1, 0)]] }]
}

#[test]
fn a_page_goes_around_the_cycle() {
    let mut p = Page::new(false, 40, one_line());
    // Ink while listening; a light touch does not write.
    assert!(p.pen_sample(&sample(100, 200, 20, true), 0).is_empty());
    assert_eq!(p.pen_sample(&sample(100, 200, 2048, true), 10), vec![PageAction::InkPoint { x: 100, y: 200, r: 3 }]);
    assert_eq!(p.pen_sample(&sample(100, 200, 0, false), 20), vec![PageAction::PenUp]);
    assert_eq!(p.phase, Phase::Listening { last_pen: Some(20) });
    // Resting less than 2.8 s: nothing.
    assert!(p.tick(2819, false, false, OracleNews::Nothing).0.is_empty());
    // Then the page is committed and the oracle asked.
    assert_eq!(p.tick(2820, false, false, OracleNews::Nothing).0, vec![PageAction::AskOracle]);
    assert_eq!(p.phase, Phase::Drinking { stage: 0, next: 2820, asked: 2820 });
    // Fourteen passes, 70 ms apart.
    let mut t = 2820;
    for stage in 0..14u32 {
        let (acts, _) = p.tick(t, true, false, OracleNews::Nothing);
        assert_eq!(acts[0], PageAction::DissolveInk { stage, stages: 14 });
        t += 70;
    }
    assert_eq!(p.phase, Phase::Thinking { pulse: t - 70, blot_on: false, asked: 2820 });
    assert!(p.wants_oracle());
    // The blot pulses while Tom thinks.
    assert_eq!(p.tick(t + 600, true, false, OracleNews::Nothing).0, vec![PageAction::StampBlot]);
    // The first chunk arrives.
    assert_eq!(p.tick(t + 700, true, false, OracleNews::Chunk(one_line())).0, vec![PageAction::ClearBlot]);
    assert_eq!(p.phase, Phase::Replying { next: t + 700, streaming: true });
    let (acts, ink) = p.tick(t + 700, true, false, OracleNews::Nothing);
    assert_eq!(acts, vec![PageAction::WriteReply]);
    assert_eq!(ink, vec![WriteOp::Dot { x: 0, y: 682 }, WriteOp::Line { x0: 0, y0: 682, x1: 1, y1: 682 }]);
    // The reply is complete: it lingers 4 s plus 2 ms a point.
    p.tick(t + 714, true, false, OracleNews::Closed);
    assert_eq!(p.phase, Phase::Lingering { until: t + 714 + 4004 });
    // A touch cuts it short; then ten fading passes and listening again.
    p.pen_sample(&sample(5, 5, 2000, true), t + 800);
    assert_eq!(p.phase, Phase::FadingReply { stage: 0, next: t + 800 });
    let mut u = t + 800;
    let mut last = Vec::new();
    for _ in 0..10 {
        last = p.tick(u, true, false, OracleNews::Nothing).0;
        u += 80;
    }
    assert_eq!(last, vec![PageAction::DissolveReply { stage: 9, stages: 10 }, PageAction::FullRefresh]);
    assert_eq!(p.phase, Phase::Listening { last_pen: None });
}

#[test]
fn a_question_mark_opens_the_guide() {
    let mut p = Page::new(false, 40, one_line());
    p.pen_sample(&sample(10, 10, 3000, true), 0);
    p.pen_sample(&sample(10, 10, 0, false), 5);
    assert_eq!(p.tick(2805, false, true, OracleNews::Nothing).0, vec![PageAction::OpenGuide]);
    assert_eq!(p.phase, Phase::Help { open: true, until: 2805 + 45000 });
    // A tap dismisses it; listening resumes once the pen leaves.
    p.pen_sample(&sample(10, 10, 3000, true), 3000);
    assert_eq!(p.tick(3001, true, false, OracleNews::Nothing).0, vec![PageAction::DismissGuide]);
    p.tick(3002, true, false, OracleNews::Nothing);
    assert!(matches!(p.phase, Phase::Help { open: false, .. }));
    p.pen_sample(&sample(10, 10, 0, false), 3003);
    p.tick(3004, true, false, OracleNews::Nothing);
    assert_eq!(p.phase, Phase::Listening { last_pen: None });
}

#[test]
fn a_failed_oracle_writes_its_line_and_stops_listening() {
    let mut p = Page::new(false, 40, one_line());
    p.phase = Phase::Thinking { pulse: 0, blot_on: true, asked: 0 };
    p.tick(10, true, false, OracleNews::Failed(one_line()));
    assert_eq!(p.phase, Phase::Replying { next: 10, streaming: false });
    assert!(!p.wants_oracle());
    let (_, ink) = p.tick(10, true, false, OracleNews::Nothing);
    assert_eq!(ink.len(), 2);
    // Nothing left to write and nothing streaming: it lingers.
    p.tick(24, true, false, OracleNews::Nothing);
    assert!(matches!(p.phase, Phase::Lingering { .. }));
    // A closed channel while thinking returns to listening.
    let mut q = Page::new(false, 40, one_line());
    q.phase = Phase::Thinking { pulse: 0, blot_on: false, asked: 0 };
    q.tick(1, true, false, OracleNews::Closed);
    assert_eq!(q.phase, Phase::Listening { last_pen: None });
}

#[test]
fn footprints_and_qtfb_pen_events() {
    let mut p = Page::new(true, 40, one_line());
    let press = InputEvent { input_type: 0x20, dev_id: 0, x: 300, y: 400, d: 90 };
    assert_eq!(
        p.qtfb_event(&press, 0),
        vec![PageAction::InkPoint { x: 300, y: 400, r: 4 }, PageAction::Footstep { x: 352, y: 362, i: 0 }]
    );
    // Too close for another footprint.
    let near = InputEvent { input_type: 0x22, dev_id: 0, x: 310, y: 400, d: 10 };
    assert_eq!(p.qtfb_event(&near, 1), vec![PageAction::InkPoint { x: 310, y: 400, r: 2 }]);
    let far = InputEvent { input_type: 0x22, dev_id: 0, x: 420, y: 400, d: 10 };
    assert_eq!(
        p.qtfb_event(&far, 2),
        vec![PageAction::InkPoint { x: 420, y: 400, r: 2 }, PageAction::Footstep { x: 472, y: 362, i: 1 }]
    );
    let release = InputEvent { input_type: 0x21, dev_id: 0, x: 0, y: 0, d: 0 };
    assert_eq!(p.qtfb_event(&release, 3), vec![PageAction::PenUp]);
    assert!(p.pen.last_footstep.is_none());
    // The eraser.
    let mut e = Page::new(false, 40, one_line());
    let rub = PenSample { x: 7, y: 8, pressure: 500, tool: Tool::Eraser, touching: true };
    assert_eq!(e.pen_sample(&rub, 0), vec![PageAction::ErasePoint { x: 7, y: 8, r: 22 }]);
}

#[test]
fn the_oracle_is_waited_for_five_minutes_at_most() {
    let mut p = Page::new(false, 40, one_line());
    p.phase = Phase::Thinking { pulse: 300_500, blot_on: true, asked: 1000 };
    assert!(p.tick(300_999, true, false, OracleNews::Nothing).0.is_empty());
    let (acts, _) = p.tick(301_000, true, false, OracleNews::Nothing);
    assert_eq!(acts, vec![PageAction::ClearBlot, PageAction::AbandonOracle]);
    assert_eq!(p.phase, Phase::Replying { next: 301_000, streaming: false });
    assert!(!p.wants_oracle());
    // The fallback line is written.
    let (_, ink) = p.tick(301_000, true, false, OracleNews::Nothing);
    assert_eq!(ink.len(), 2);
}

#[test]
fn live_ink_is_pushed_at_its_pace() {
    assert!(!flush_due(true, 107, 100, true));
    assert!(flush_due(true, 108, 100, true));
    assert!(!flush_due(true, 134, 100, false));
    assert!(flush_due(true, 135, 100, false));
    assert!(!flush_due(false, 1000, 100, false));
}

#[test]
fn the_sleep_cycle_retries_suspend_eight_times() {
    assert!(!press_sleeps(true, 10, 11));
    assert!(press_sleeps(true, 11, 11));
    assert!(!press_sleeps(false, 99, 11));
    assert_eq!(grace_end(500), 3500);
    let mut c = SleepCycle::begin(7, 0);
    assert!(!c.woke(7));
    assert!(c.woke(8));
    assert_eq!(c.next(5999), SleepStep::Poll);
    let mut t = 6000;
    for attempt in 2..=8u32 {
        assert_eq!(c.next(t), SleepStep::Suspend);
        assert_eq!(c.attempts, attempt);
        t += 6000;
    }
    assert_eq!(c.next(t), SleepStep::GiveUp);
}
