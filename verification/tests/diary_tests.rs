use riddle::diary::{
    append_reply, draw_faded_footstep, linger_ms, plan_reply, qtfb_ink_radius,
    should_stamp_footstep, solid_ellipse, TracedLine, WriteOp, WritePlan, WRITE_BUDGET,
};

#[test]
fn footsteps_keep_their_distance() {
    assert!(should_stamp_footstep(None, 5, 5));
    assert!(!should_stamp_footstep(Some((0, 0)), 119, 0));
    assert!(should_stamp_footstep(Some((0, 0)), 120, 0));
    assert!(should_stamp_footstep(Some((0, 0)), 72, 96));
    assert!(!should_stamp_footstep(Some((10, 10)), 80, 100));
}

#[test]
fn ellipse_pixels_row_by_row() {
    let mut px = Vec::new();
    solid_ellipse(10, 20, 1, 1, &mut px);
    assert_eq!(px, vec![(10, 19), (9, 20), (10, 20), (11, 20), (10, 21)]);
    let mut px = Vec::new();
    solid_ellipse(0, 0, 2, 1, &mut px);
    assert_eq!(px, vec![(0, -1), (-2, 0), (-1, 0), (0, 0), (1, 0), (2, 0), (0, 1)]);
    let mut px = Vec::new();
    solid_ellipse(0, 0, -1, 3, &mut px);
    assert!(px.is_empty());
    let mut px = vec![(7, 7)];
    solid_ellipse(0, 0, 0, 0, &mut px);
    assert_eq!(px, vec![(7, 7), (0, 0)]);
}

#[test]
fn footprints_mirror_on_alternate_steps() {
    let left = draw_faded_footstep(500, 500, 0);
    let right = draw_faded_footstep(500, 500, 1);
    assert_eq!(left.len(), right.len());
    // The heel is the same; the toes go to opposite sides.
    assert!(left.contains(&(500, 500)) && right.contains(&(500, 500)));
    assert!(left.iter().any(|&(x, _)| x < 480));
    assert!(right.iter().any(|&(x, _)| x > 520));
    assert!(left.iter().all(|&(x, _)| x <= 508));
}

#[test]
fn ink_radius_from_qtfb_pressure() {
    assert_eq!(qtfb_ink_radius(-5), 2);
    assert_eq!(qtfb_ink_radius(44), 2);
    assert_eq!(qtfb_ink_radius(45), 3);
    assert_eq!(qtfb_ink_radius(100), 4);
    assert_eq!(qtfb_ink_radius(1000), 4);
}

#[test]
fn reply_is_written_a_budget_at_a_time() {
    let strokes = vec![vec![(0, 0), (1, 1), (2, 2)], vec![], vec![(5, 5)]];
    let mut plan = WritePlan::new(strokes, 300);
    assert_eq!(plan.point_count(), 4);
    let first = plan.step(2);
    assert_eq!(
        first,
        vec![WriteOp::Dot { x: 0, y: 0 }, WriteOp::Line { x0: 0, y0: 0, x1: 1, y1: 1 }]
    );
    assert!(!plan.is_done());
    let second = plan.step(WRITE_BUDGET);
    assert_eq!(
        second,
        vec![WriteOp::Line { x0: 1, y0: 1, x1: 2, y1: 2 }, WriteOp::Dot { x: 5, y: 5 }]
    );
    assert!(plan.is_done());
    assert!(plan.step(WRITE_BUDGET).is_empty());
}

#[test]
fn exhausting_the_budget_on_the_last_point_finishes_next_frame() {
    let mut plan = WritePlan::new(vec![vec![(0, 0), (1, 0)]], 0);
    assert_eq!(plan.step(2).len(), 2);
    assert!(!plan.is_done());
    assert!(plan.step(WRITE_BUDGET).is_empty());
    assert!(plan.is_done());
}

#[test]
fn continuation_is_spliced_after_what_is_written() {
    let mut plan = WritePlan::new(vec![vec![(0, 0), (1, 0)]], 100);
    plan.step(1);
    plan.append(WritePlan::new(vec![], 999));
    assert_eq!(plan.next_y, 100);
    plan.append(WritePlan::new(vec![vec![(9, 9)]], 220));
    assert_eq!(plan.next_y, 220);
    assert_eq!(plan.strokes.len(), 2);
    let rest = plan.step(WRITE_BUDGET);
    assert_eq!(
        rest,
        vec![WriteOp::Line { x0: 0, y0: 0, x1: 1, y1: 0 }, WriteOp::Dot { x: 9, y: 9 }]
    );
}

#[test]
fn lingering_grows_with_the_reply_and_is_capped() {
    assert_eq!(linger_ms(0), 4000);
    assert_eq!(linger_ms(500), 5000);
    assert_eq!(linger_ms(8000), 20000);
    assert_eq!(linger_ms(100000), 20000);
}

#[test]
fn reply_lines_are_centered_spaced_and_wobbled() {
    let lines = vec![
        TracedLine { width: 1000, strokes: vec![vec![(0, 0), (10, 5)]] },
        TracedLine { width: 21, strokes: vec![vec![(1, 2)]] },
    ];
    let plan = plan_reply(&lines, None);
    // Two lines of 120 px leave 1920 px free: a third of it is 640.
    assert_eq!(plan.strokes, vec![vec![(310, 642), (320, 647)], vec![(800, 759)]]);
    assert_eq!(plan.next_y, 880);
    assert_eq!((plan.stroke_i, plan.point_i), (0, 0));
    let cont = plan_reply(&lines, Some(100));
    assert_eq!(cont.strokes[0], vec![(310, 102), (320, 107)]);
    assert_eq!(cont.next_y, 340);
}

#[test]
fn a_tall_reply_starts_sixty_pixels_down() {
    let lines: Vec<TracedLine> = (0..20).map(|_| TracedLine { width: 0, strokes: vec![] }).collect();
    let plan = plan_reply(&lines, None);
    assert!(plan.strokes.is_empty());
    assert_eq!(plan.next_y, 60 + 20 * 120);
}

#[test]
fn streamed_chunk_continues_below_the_plan() {
    let first = vec![TracedLine { width: 1620, strokes: vec![vec![(0, 0)]] }];
    let mut plan = plan_reply(&first, None);
    // One line of 120 px leaves 2040 px free: a third of it is 680.
    assert_eq!(plan.next_y, 680 + 120);
    let more = vec![TracedLine { width: 1620, strokes: vec![vec![(4, 0)]] }];
    append_reply(&mut plan, &more);
    assert_eq!(plan.strokes, vec![vec![(0, 682)], vec![(4, 802)]]);
    assert_eq!(plan.next_y, 920);
    // A chunk that traced to nothing changes nothing.
    append_reply(&mut plan, &vec![TracedLine { width: 10, strokes: vec![] }]);
    assert_eq!(plan.next_y, 920);
    assert_eq!(plan.strokes.len(), 2);
}
