//! The page loop's decisions. The diary listens for the pen; when the
//! writer rests it for 2.8 s the page is committed (or, if it is a large
//! "?", the guide opens); the ink is drunk in 14 passes while the oracle is
//! asked; a blot pulses while Tom thinks; his reply is written out as it
//! streams in, lingers, and fades in 10 passes. Each call takes what the
//! loop observed and returns what it is to do, in order; time is in
//! milliseconds of a monotonic clock.

use vstd::prelude::*;
use crate::diary::{
    all_ops, append_reply, layout_fits, layout_strokes, lines_view, linger_ms, plan_reply,
    qtfb_ink_radius, reply_top, should_stamp_footstep, stamp_fits, footprint_fits, TracedLine,
    WriteOp, WritePlan, REPLY_LINE_H, WRITE_BUDGET,
};
use crate::pen::{ink_radius, trunc_div, writing_spec, PenSample, Tool, MAX_PRESSURE};
use crate::qtfb::{InputEvent, INPUT_PEN_PRESS, INPUT_PEN_RELEASE, INPUT_PEN_UPDATE};

verus! {

/// The pen resting this long commits the page.
pub const IDLE_COMMIT_MS: u64 = 2800;
/// Passes that drink the writer's ink, and the time between them.
pub const DRINK_STAGES: u32 = 14;
pub const DRINK_STEP_MS: u64 = 70;
/// The thinking blot pulses at this period.
pub const PULSE_MS: u64 = 600;
/// Time between frames of the writing animation.
pub const WRITE_STEP_MS: u64 = 14;
/// Passes that fade the reply, and the time between them.
pub const FADE_STAGES: u32 = 10;
pub const FADE_STEP_MS: u64 = 80;
/// The longest the page waits for the oracle to begin its reply.
pub const ORACLE_PATIENCE_MS: u64 = 300000;
/// The guide closes by itself after this long.
pub const GUIDE_MS: u64 = 45000;
/// Radius of the eraser.
pub const ERASER_R: i32 = 22;
/// Where a footprint goes relative to the pen.
pub const FOOTSTEP_DX: i32 = 52;
pub const FOOTSTEP_DY: i32 = -38;

/// Where the page is in its cycle.
#[derive(Debug, Clone, Copy, PartialEq, Eq, Structural)]
pub enum Phase {
    /// Waiting for ink; `last_pen` is when the pen last touched or left.
    Listening { last_pen: Option<u64> },
    /// Drinking the committed ink, pass `stage` due at `next`; the oracle
    /// was asked at `asked`.
    Drinking { stage: u32, next: u64, asked: u64 },
    /// Waiting for the oracle, asked at `asked`; the blot last changed at
    /// `pulse`.
    Thinking { pulse: u64, blot_on: bool, asked: u64 },
    /// Writing the reply, next frame at `next`; `streaming` while more of
    /// it may arrive.
    Replying { next: u64, streaming: bool },
    /// The reply rests on the page until `until`.
    Lingering { until: u64 },
    /// Fading the reply, pass `stage` due at `next`.
    FadingReply { stage: u32, next: u64 },
    /// The guide: `open` until dismissed or `until`; once dismissed, waiting
    /// for the pen to leave the glass.
    Help { open: bool, until: u64 },
}

/// What the loop knows of the pen.
#[derive(Debug, Clone, Copy)]
pub struct PenFeel {
    /// A stroke is being written.
    pub pen_down: bool,
    /// The stylus is on the glass (in any phase).
    pub stylus_on: bool,
    /// The stylus touched the glass during this loop iteration.
    pub stylus_tapped: bool,
    /// Where the last footprint of this stroke was stamped.
    pub last_footstep: Option<(i32, i32)>,
    /// Footprints stamped so far (they alternate feet).
    pub footstep_i: u32,
}

/// One thing the loop is to do.
#[derive(Debug, Clone, Copy, PartialEq, Eq, Structural)]
pub enum PageAction {
    /// Ink a point of the writer's stroke.
    InkPoint { x: i32, y: i32, r: i32 },
    /// Erase around a point.
    ErasePoint { x: i32, y: i32, r: i32 },
    /// The writer lifted the pen: the stroke ends.
    PenUp,
    /// Stamp footprint `i` at (`x`, `y`).
    Footstep { x: i32, y: i32, i: u32 },
    /// The page is a "?": wipe the mark and open the guide.
    OpenGuide,
    /// Rasterize the committed page and ask the oracle about it.
    AskOracle,
    /// One pass of dissolving the writer's ink, then push its region.
    DissolveInk { stage: u32, stages: u32 },
    /// Forget the writer's ink.
    ClearInk,
    /// Wipe the thinking blot, then push it.
    ClearBlot,
    /// Stamp the thinking blot, then push it.
    StampBlot,
    /// Draw this frame's brush movements of the reply, then push them.
    WriteReply,
    /// Close the guide.
    DismissGuide,
    /// One pass of fading the reply, then push its region.
    DissolveReply { stage: u32, stages: u32 },
    /// Flashing clear of the whole panel.
    FullRefresh,
    /// Stop waiting for the oracle: its reply is no longer read.
    AbandonOracle,
}

// ---------------------------------------------------------------------------
// The pen.
// ---------------------------------------------------------------------------

/// Whether a footprint is due at (`x`, `y`).
pub open spec fn stamp_due(last: Option<(i32, i32)>, x: i32, y: i32) -> bool {
    match last {
        None => true,
        Some((lx, ly)) => (x - lx) * (x - lx) + (y - ly) * (y - ly) >= 14400,
    }
}

/// Inking a point of radius `r`, and a footprint beside it when they are
/// on and one is due.
pub open spec fn ink_spec(pen: PenFeel, footsteps: bool, x: i32, y: i32, r: i32) -> (
    PenFeel,
    Seq<PageAction>,
) {
    let ink = seq![PageAction::InkPoint { x, y, r }];
    if footsteps && stamp_due(pen.last_footstep, x, y) {
        (
            PenFeel {
                last_footstep: Some((x, y)),
                footstep_i: pen.footstep_i.wrapping_add(1),
                ..pen
            },
            ink.push(
                PageAction::Footstep {
                    x: (x + FOOTSTEP_DX) as i32,
                    y: (y + FOOTSTEP_DY) as i32,
                    i: pen.footstep_i,
                },
            ),
        )
    } else {
        (pen, ink)
    }
}

/// The pen leaving the glass: a stroke in progress ends.
pub open spec fn lift_spec(phase: Phase, pen: PenFeel, now: u64) -> (Phase, PenFeel, Seq<PageAction>) {
    if pen.pen_down {
        (
            match phase {
                Phase::Listening { .. } => Phase::Listening { last_pen: Some(now) },
                _ => phase,
            },
            PenFeel { pen_down: false, last_footstep: None, ..pen },
            seq![PageAction::PenUp],
        )
    } else {
        (phase, pen, Seq::empty())
    }
}

/// The pen on the glass at (`x`, `y`) with ink radius `r` (the eraser
/// when `erase`): ink while listening; any touch cuts a lingering reply
/// short.
pub open spec fn touch_spec(
    phase: Phase,
    pen: PenFeel,
    footsteps: bool,
    now: u64,
    x: i32,
    y: i32,
    r: i32,
    erase: bool,
) -> (Phase, PenFeel, Seq<PageAction>) {
    match phase {
        Phase::Listening { .. } => {
            let down = PenFeel { pen_down: true, ..pen };
            let (p, acts) = if erase {
                (down, seq![PageAction::ErasePoint { x, y, r: ERASER_R }])
            } else {
                ink_spec(down, footsteps, x, y, r)
            };
            (Phase::Listening { last_pen: Some(now) }, p, acts)
        },
        Phase::Lingering { .. } => (Phase::FadingReply { stage: 0, next: now }, pen, Seq::empty()),
        _ => (phase, pen, Seq::empty()),
    }
}

/// A sample of the raw pen.
pub open spec fn sample_spec(
    phase: Phase,
    pen: PenFeel,
    footsteps: bool,
    min_pressure: i32,
    s: PenSample,
    now: u64,
) -> (Phase, PenFeel, Seq<PageAction>) {
    let w = writing_spec(s, min_pressure);
    let pen1 = PenFeel { stylus_on: w, stylus_tapped: pen.stylus_tapped || w, ..pen };
    if !w {
        lift_spec(phase, pen1, now)
    } else {
        touch_spec(
            phase,
            pen1,
            footsteps,
            now,
            s.x,
            s.y,
            (2 + trunc_div(s.pressure * 3, MAX_PRESSURE as int)) as i32,
            s.tool == Tool::Eraser,
        )
    }
}

/// A pen event relayed by qtfb (used when the raw pen is unavailable).
pub open spec fn qtfb_spec(phase: Phase, pen: PenFeel, footsteps: bool, ev: InputEvent, now: u64) -> (
    Phase,
    PenFeel,
    Seq<PageAction>,
) {
    if ev.input_type == INPUT_PEN_PRESS || ev.input_type == INPUT_PEN_UPDATE {
        let d = if ev.d < 0 {
            0
        } else if ev.d > 100 {
            100
        } else {
            ev.d as int
        };
        touch_spec(
            phase,
            PenFeel { stylus_on: true, stylus_tapped: true, ..pen },
            footsteps,
            now,
            ev.x,
            ev.y,
            (2 + d / 45) as i32,
            false,
        )
    } else if ev.input_type == INPUT_PEN_RELEASE {
        lift_spec(phase, PenFeel { stylus_on: false, ..pen }, now)
    } else {
        (phase, pen, Seq::empty())
    }
}

/// Whether inking at (`x`, `y`) stays within `i32` arithmetic, footprint
/// included.
pub open spec fn ink_fits(pen: PenFeel, footsteps: bool, x: i32, y: i32) -> bool {
    footsteps ==> {
        &&& stamp_fits(pen.last_footstep, x, y)
        &&& stamp_due(pen.last_footstep, x, y) ==> {
            &&& x + FOOTSTEP_DX <= i32::MAX
            &&& i32::MIN <= y + FOOTSTEP_DY
            &&& footprint_fits((x + FOOTSTEP_DX) as i32, (y + FOOTSTEP_DY) as i32, pen.footstep_i)
        }
    }
}

/// What the page is doing and what it knows of the pen, the reply being
/// written, and its settings.
pub struct Page {
    pub phase: Phase,
    pub pen: PenFeel,
    pub plan: WritePlan,
    /// Stamp footprints beside live ink.
    pub footsteps: bool,
    /// The pressure above which the raw pen writes.
    pub min_pressure: i32,
    /// What the page writes when the oracle never answers: the script's
    /// "…", laid out once.
    pub fallback: Vec<TracedLine>,
}

impl Page {
    pub open spec fn wf(&self) -> bool {
        &&& self.plan.wf()
        &&& self.phase matches Phase::Drinking { stage, .. } ==> stage < DRINK_STAGES
        &&& self.phase matches Phase::FadingReply { stage, .. } ==> stage < FADE_STAGES
    }

    /// A blank page, listening.
    pub fn new(footsteps: bool, min_pressure: i32, fallback: Vec<TracedLine>) -> (p: Self)
        ensures
            p.wf(),
            p.phase == (Phase::Listening { last_pen: None }),
            p.pen == (PenFeel {
                pen_down: false,
                stylus_on: false,
                stylus_tapped: false,
                last_footstep: None,
                footstep_i: 0,
            }),
            p.plan.strokes@.len() == 0,
            p.footsteps == footsteps,
            p.min_pressure == min_pressure,
            p.fallback@ == fallback@,
    {
        Page {
            phase: Phase::Listening { last_pen: None },
            pen: PenFeel {
                pen_down: false,
                stylus_on: false,
                stylus_tapped: false,
                last_footstep: None,
                footstep_i: 0,
            },
            plan: WritePlan::new(Vec::new(), 0),
            footsteps,
            min_pressure,
            fallback,
        }
    }

    fn ink(&mut self, x: i32, y: i32, r: i32, acts: &mut Vec<PageAction>)
        requires
            ink_fits(old(self).pen, old(self).footsteps, x, y),
        ensures
            (final(self).pen, final(acts)@) == ({
                let (p, a) = ink_spec(old(self).pen, old(self).footsteps, x, y, r);
                (p, old(acts)@ + a)
            }),
            final(self).phase == old(self).phase,
            final(self).plan == old(self).plan,
            final(self).footsteps == old(self).footsteps,
            final(self).min_pressure == old(self).min_pressure,
    {
        let ghost a0 = acts@;
        acts.push(PageAction::InkPoint { x, y, r });
        if self.footsteps && should_stamp_footstep(self.pen.last_footstep, x, y) {
            acts.push(PageAction::Footstep { x: x + FOOTSTEP_DX, y: y + FOOTSTEP_DY, i: self.pen.footstep_i });
            self.pen.last_footstep = Some((x, y));
            self.pen.footstep_i = self.pen.footstep_i.wrapping_add(1);
        }
        proof {
            let (p, a) = ink_spec(old(self).pen, old(self).footsteps, x, y, r);
            assert(acts@ =~= a0 + a);
        }
    }

    fn touch(&mut self, now: u64, x: i32, y: i32, r: i32, erase: bool) -> (acts: Vec<PageAction>)
        requires
            old(self).wf(),
            old(self).phase is Listening && !erase ==> ink_fits(old(self).pen, old(self).footsteps, x, y),
        ensures
            final(self).wf(),
            (final(self).phase, final(self).pen, acts@) == touch_spec(
                old(self).phase,
                old(self).pen,
                old(self).footsteps,
                now,
                x,
                y,
                r,
                erase,
            ),
            final(self).plan == old(self).plan,
            final(self).footsteps == old(self).footsteps,
            final(self).min_pressure == old(self).min_pressure,
    {
        let mut acts: Vec<PageAction> = Vec::new();
        match self.phase {
            Phase::Listening { .. } => {
                self.pen.pen_down = true;
                if erase {
                    acts.push(PageAction::ErasePoint { x, y, r: ERASER_R });
                } else {
                    self.ink(x, y, r, &mut acts);
                }
                self.phase = Phase::Listening { last_pen: Some(now) };
                assert(acts@ =~= touch_spec(
                    old(self).phase,
                    old(self).pen,
                    old(self).footsteps,
                    now,
                    x,
                    y,
                    r,
                    erase,
                ).2);
            },
            Phase::Lingering { .. } => {
                self.phase = Phase::FadingReply { stage: 0, next: now };
            },
            _ => {},
        }
        acts
    }

    fn lift(&mut self, now: u64) -> (acts: Vec<PageAction>)
        requires
            old(self).wf(),
        ensures
            final(self).wf(),
            (final(self).phase, final(self).pen, acts@) == lift_spec(old(self).phase, old(self).pen, now),
            final(self).plan == old(self).plan,
            final(self).footsteps == old(self).footsteps,
            final(self).min_pressure == old(self).min_pressure,
    {
        let mut acts: Vec<PageAction> = Vec::new();
        if self.pen.pen_down {
            self.pen.pen_down = false;
            acts.push(PageAction::PenUp);
            self.pen.last_footstep = None;
            if let Phase::Listening { .. } = self.phase {
                self.phase = Phase::Listening { last_pen: Some(now) };
            }
            assert(acts@ =~= seq![PageAction::PenUp]);
        }
        acts
    }

    /// Whether `sample` can be taken now without leaving `i32` arithmetic.
    pub open spec fn sample_fits(&self, s: PenSample) -> bool {
        writing_spec(s, self.min_pressure) && self.phase is Listening && s.tool == Tool::Pen ==> {
            &&& i32::MIN <= s.pressure * 3 <= i32::MAX
            &&& ink_fits(self.pen, self.footsteps, s.x, s.y)
        }
    }

    /// Takes one sample of the raw pen.
    pub fn pen_sample(&mut self, s: &PenSample, now: u64) -> (acts: Vec<PageAction>)
        requires
            old(self).wf(),
            old(self).sample_fits(*s),
        ensures
            final(self).wf(),
            (final(self).phase, final(self).pen, acts@) == sample_spec(
                old(self).phase,
                old(self).pen,
                old(self).footsteps,
                old(self).min_pressure,
                *s,
                now,
            ),
            final(self).plan == old(self).plan,
            final(self).footsteps == old(self).footsteps,
            final(self).min_pressure == old(self).min_pressure,
    {
        let w = s.touching && s.pressure > self.min_pressure;
        self.pen.stylus_on = w;
        self.pen.stylus_tapped = self.pen.stylus_tapped || w;
        if !w {
            return self.lift(now);
        }
        match s.tool {
            Tool::Pen => {
                let r = if let Phase::Listening { .. } = self.phase {
                    ink_radius(s.pressure)
                } else {
                    0
                };
                let acts = self.touch(now, s.x, s.y, r, false);
                proof {
                    if !(old(self).phase is Listening) {
                        assert(acts@ == touch_spec(
                            old(self).phase,
                            self.pen,
                            old(self).footsteps,
                            now,
                            s.x,
                            s.y,
                            (2 + trunc_div(s.pressure * 3, MAX_PRESSURE as int)) as i32,
                            false,
                        ).2);
                    }
                }
                acts
            },
            Tool::Eraser => self.touch(now, s.x, s.y, 0, true),
        }
    }

    /// Whether `ev` can be taken now without leaving `i32` arithmetic.
    pub open spec fn event_fits(&self, ev: InputEvent) -> bool {
        (ev.input_type == INPUT_PEN_PRESS || ev.input_type == INPUT_PEN_UPDATE) && self.phase
            is Listening ==> ink_fits(self.pen, self.footsteps, ev.x, ev.y)
    }

    /// Takes one pen event relayed by qtfb.
    pub fn qtfb_event(&mut self, ev: &InputEvent, now: u64) -> (acts: Vec<PageAction>)
        requires
            old(self).wf(),
            old(self).event_fits(*ev),
        ensures
            final(self).wf(),
            (final(self).phase, final(self).pen, acts@) == qtfb_spec(
                old(self).phase,
                old(self).pen,
                old(self).footsteps,
                *ev,
                now,
            ),
            final(self).plan == old(self).plan,
            final(self).footsteps == old(self).footsteps,
            final(self).min_pressure == old(self).min_pressure,
    {
        if ev.input_type == INPUT_PEN_PRESS || ev.input_type == INPUT_PEN_UPDATE {
            self.pen.stylus_on = true;
            self.pen.stylus_tapped = true;
            let r = qtfb_ink_radius(ev.d);
            self.touch(now, ev.x, ev.y, r, false)
        } else if ev.input_type == INPUT_PEN_RELEASE {
            self.pen.stylus_on = false;
            self.lift(now)
        } else {
            Vec::new()
        }
    }
}


// ---------------------------------------------------------------------------
// The page's cycle.
// ---------------------------------------------------------------------------

/// What the loop heard from the oracle since the last tick.
pub enum OracleNews {
    /// Nothing new (or the page is not waiting for the oracle).
    Nothing,
    /// The next chunk of the reply, laid out by the handwriting script.
    Chunk(Vec<TracedLine>),
    /// The oracle failed; the lines are the script's "…".
    Failed(Vec<TracedLine>),
    /// The reply is complete: the oracle's channel closed.
    Closed,
}

/// Which news it is, without the lines.
#[derive(Debug, Clone, Copy, PartialEq, Eq, Structural)]
pub enum NewsKind {
    Nothing,
    Chunk,
    Failed,
    Closed,
}

pub open spec fn news_kind(n: &OracleNews) -> NewsKind {
    match n {
        OracleNews::Nothing => NewsKind::Nothing,
        OracleNews::Chunk(_) => NewsKind::Chunk,
        OracleNews::Failed(_) => NewsKind::Failed,
        OracleNews::Closed => NewsKind::Closed,
    }
}

/// The lines a news carries (none for `Nothing` and `Closed`).
pub open spec fn news_lines(n: &OracleNews) -> Seq<TracedLine> {
    match n {
        OracleNews::Chunk(ls) => ls@,
        OracleNews::Failed(ls) => ls@,
        _ => Seq::empty(),
    }
}

/// Time since `t`, as a monotonic clock's `elapsed` gives it (never
/// negative).
pub open spec fn since(now: u64, t: u64) -> int {
    if now >= t {
        now - t
    } else {
        0
    }
}

/// How long a reply of `points` points lingers.
pub open spec fn linger_spec(points: nat) -> int {
    if 4000 + 2 * points <= 20000 {
        (4000 + 2 * points) as int
    } else {
        20000
    }
}

/// The next phase and what to do, at time `now`. `ink_empty` tells
/// whether the writer's page holds ink, `question` whether it is a "?";
/// while a reply is written, `done_after` and `points_after` tell whether
/// this frame finished writing it and how many points it has.
pub open spec fn tick_spec(
    phase: Phase,
    pen: PenFeel,
    now: u64,
    ink_empty: bool,
    question: bool,
    news: NewsKind,
    done_after: bool,
    points_after: nat,
) -> (Phase, Seq<PageAction>) {
    match phase {
        Phase::Listening { last_pen } => match last_pen {
            Some(t) => if !pen.pen_down && since(now, t) >= IDLE_COMMIT_MS && !ink_empty {
                if question {
                    (Phase::Help { open: true, until: (now + GUIDE_MS) as u64 }, seq![PageAction::OpenGuide])
                } else {
                    (Phase::Drinking { stage: 0, next: now, asked: now }, seq![PageAction::AskOracle])
                }
            } else {
                (phase, Seq::empty())
            },
            None => (phase, Seq::empty()),
        },
        Phase::Drinking { stage, next, asked } => if now >= next {
            let pass = PageAction::DissolveInk { stage, stages: DRINK_STAGES };
            if stage + 1 >= DRINK_STAGES {
                (Phase::Thinking { pulse: now, blot_on: false, asked }, seq![pass, PageAction::ClearInk])
            } else {
                (
                    Phase::Drinking { stage: (stage + 1) as u32, next: (now + DRINK_STEP_MS) as u64, asked },
                    seq![pass],
                )
            }
        } else {
            (phase, Seq::empty())
        },
        Phase::Thinking { pulse, blot_on, asked } => match news {
            NewsKind::Chunk => (Phase::Replying { next: now, streaming: true }, seq![PageAction::ClearBlot]),
            NewsKind::Failed => (Phase::Replying { next: now, streaming: false }, seq![PageAction::ClearBlot]),
            NewsKind::Closed => (Phase::Listening { last_pen: None }, Seq::empty()),
            NewsKind::Nothing => if since(now, asked) >= ORACLE_PATIENCE_MS {
                (
                    Phase::Replying { next: now, streaming: false },
                    seq![PageAction::ClearBlot, PageAction::AbandonOracle],
                )
            } else if since(now, pulse) >= PULSE_MS {
                (
                    Phase::Thinking { pulse: now, blot_on: !blot_on, asked },
                    seq![if blot_on { PageAction::ClearBlot } else { PageAction::StampBlot }],
                )
            } else {
                (phase, Seq::empty())
            },
        },
        Phase::Replying { next, streaming } => {
            let still = streaming && (news == NewsKind::Nothing || news == NewsKind::Chunk);
            if now >= next {
                if done_after && !still {
                    (
                        Phase::Lingering { until: (now + linger_spec(points_after)) as u64 },
                        seq![PageAction::WriteReply],
                    )
                } else {
                    (
                        Phase::Replying { next: (now + WRITE_STEP_MS) as u64, streaming: still },
                        seq![PageAction::WriteReply],
                    )
                }
            } else {
                (Phase::Replying { next, streaming: still }, Seq::empty())
            }
        },
        Phase::Lingering { until } => if now >= until {
            (Phase::FadingReply { stage: 0, next: now }, Seq::empty())
        } else {
            (phase, Seq::empty())
        },
        Phase::Help { open, until } => if open {
            if pen.stylus_tapped || now >= until {
                (Phase::Help { open: false, until }, seq![PageAction::DismissGuide])
            } else {
                (phase, Seq::empty())
            }
        } else if pen.stylus_on {
            (phase, Seq::empty())
        } else {
            (Phase::Listening { last_pen: None }, Seq::empty())
        },
        Phase::FadingReply { stage, next } => if now >= next {
            let pass = PageAction::DissolveReply { stage, stages: FADE_STAGES };
            if stage + 1 >= FADE_STAGES {
                (Phase::Listening { last_pen: None }, seq![pass, PageAction::FullRefresh])
            } else {
                (Phase::FadingReply { stage: (stage + 1) as u32, next: (now + FADE_STEP_MS) as u64 }, seq![pass])
            }
        } else {
            (phase, Seq::empty())
        },
    }
}

/// Whether the page takes news from the oracle this tick.
pub open spec fn wants_news(phase: Phase) -> bool {
    phase is Thinking || phase matches Phase::Replying { streaming: true, .. }
}

/// Whether the news appends a chunk to the reply being written.
pub open spec fn appends(phase: Phase, news: NewsKind) -> bool {
    phase matches Phase::Replying { streaming: true, .. } && news == NewsKind::Chunk
}

/// Whether the news starts the reply's plan.
pub open spec fn starts_plan(phase: Phase, news: NewsKind) -> bool {
    phase is Thinking && (news == NewsKind::Chunk || news == NewsKind::Failed)
}

/// Whether the page gives up waiting for the oracle this tick.
pub open spec fn gives_up(phase: Phase, news: NewsKind, now: u64) -> bool {
    phase matches Phase::Thinking { asked, .. } && news == NewsKind::Nothing && since(now, asked)
        >= ORACLE_PATIENCE_MS
}

/// Whether the tick lays out a new reply: the oracle's first chunk or
/// failure, or the page giving up on it.
pub open spec fn fresh_plan(phase: Phase, news: NewsKind, now: u64) -> bool {
    starts_plan(phase, news) || gives_up(phase, news, now)
}

/// Movements written of `ss` by the cursor at stroke `si`, point `pi`.
pub open spec fn written_at(ss: Seq<Seq<(i32, i32)>>, si: int, pi: int) -> int {
    all_ops(ss.take(si)).len() + pi
}

impl Page {
    /// Whether the page takes news from the oracle this tick (otherwise
    /// the loop does not read the oracle's channel).
    pub fn wants_oracle(&self) -> (b: bool)
        ensures
            b == wants_news(self.phase),
    {
        match self.phase {
            Phase::Thinking { .. } => true,
            Phase::Replying { streaming, .. } => streaming,
            _ => false,
        }
    }

    /// The lines of a reply laid out afresh this tick: the news's, or the
    /// fallback when the page gives up.
    pub open spec fn fresh_lines(&self, news: &OracleNews) -> Seq<TracedLine> {
        if starts_plan(self.phase, news_kind(news)) {
            news_lines(news)
        } else {
            self.fallback@
        }
    }

    /// The strokes the reply will have once the news is taken.
    pub open spec fn strokes_after(&self, news: &OracleNews, now: u64) -> Seq<Seq<(i32, i32)>> {
        if fresh_plan(self.phase, news_kind(news), now) {
            layout_strokes(
                lines_view(self.fresh_lines(news)),
                reply_top(self.fresh_lines(news).len(), None),
            )
        } else if appends(self.phase, news_kind(news)) {
            self.plan.view_strokes() + layout_strokes(
                lines_view(news_lines(news)),
                self.plan.next_y as int,
            )
        } else {
            self.plan.view_strokes()
        }
    }

    /// Whether the tick can take the news within machine arithmetic: the
    /// news lays out within `i32`, the reply's points can be counted, and
    /// the clock is far from its end.
    pub open spec fn tick_fits(&self, now: u64, news: &OracleNews) -> bool {
        &&& now <= u64::MAX - GUIDE_MS
        &&& fresh_plan(self.phase, news_kind(news), now) ==> layout_fits(
            lines_view(self.fresh_lines(news)),
            reply_top(self.fresh_lines(news).len(), None),
        )
        &&& appends(self.phase, news_kind(news)) ==> layout_fits(
            lines_view(news_lines(news)),
            self.plan.next_y as int,
        )
        &&& all_ops(self.strokes_after(news, now)).len() <= usize::MAX
        &&& all_ops(self.strokes_after(news, now)).len() <= (u64::MAX - 4000) / 2
    }

    /// One turn of the page's cycle at time `now`: returns what to do, in
    /// order, and the reply's brush movements for `WriteReply`. Ends the
    /// loop iteration: the stylus tap latch is cleared.
    pub fn tick(&mut self, now: u64, ink_empty: bool, question: bool, news: OracleNews) -> (r: (
        Vec<PageAction>,
        Vec<WriteOp>,
    ))
        requires
            old(self).wf(),
            old(self).tick_fits(now, &news),
        ensures
            final(self).wf(),
            final(self).footsteps == old(self).footsteps,
            final(self).min_pressure == old(self).min_pressure,
            final(self).pen == (PenFeel { stylus_tapped: false, ..old(self).pen }),
            (final(self).phase, r.0@) == tick_spec(
                old(self).phase,
                old(self).pen,
                now,
                ink_empty,
                question,
                news_kind(&news),
                final(self).plan.stroke_i >= final(self).plan.strokes@.len(),
                all_ops(final(self).plan.view_strokes()).len(),
            ),
            final(self).fallback@ == old(self).fallback@,
            final(self).plan.view_strokes() == old(self).strokes_after(&news, now),
            fresh_plan(old(self).phase, news_kind(&news), now) ==> {
                &&& final(self).plan.stroke_i == 0
                &&& final(self).plan.point_i == 0
                &&& final(self).plan.next_y == reply_top(old(self).fresh_lines(&news).len(), None)
                    + REPLY_LINE_H * old(self).fresh_lines(&news).len()
            },
            appends(old(self).phase, news_kind(&news)) ==> final(self).plan.next_y == if layout_strokes(
                lines_view(news_lines(&news)),
                old(self).plan.next_y as int,
            ).len() > 0 {
                old(self).plan.next_y + REPLY_LINE_H * news_lines(&news).len()
            } else {
                old(self).plan.next_y as int
            },
            !fresh_plan(old(self).phase, news_kind(&news), now) && !appends(old(self).phase, news_kind(&news))
                ==> final(self).plan.next_y == old(self).plan.next_y,
            match old(self).phase {
                Phase::Replying { next, .. } => if now >= next {
                    let ss = final(self).plan.view_strokes();
                    let c0 = written_at(ss, old(self).plan.stroke_i as int, old(self).plan.point_i as int);
                    let c1 = written_at(ss, final(self).plan.stroke_i as int, final(self).plan.point_i as int);
                    &&& c1 == (if c0 + WRITE_BUDGET <= all_ops(ss).len() {
                        c0 + WRITE_BUDGET
                    } else {
                        all_ops(ss).len() as int
                    })
                    &&& r.1@ == all_ops(ss).subrange(c0, c1)
                    &&& c1 < c0 + WRITE_BUDGET ==> final(self).plan.stroke_i == ss.len()
                    &&& c1 == c0 + WRITE_BUDGET ==> final(self).plan.stroke_i < ss.len()
                        && final(self).plan.point_i >= 1
                } else {
                    &&& final(self).plan.stroke_i == old(self).plan.stroke_i
                    &&& final(self).plan.point_i == old(self).plan.point_i
                    &&& r.1@.len() == 0
                },
                _ => !fresh_plan(old(self).phase, news_kind(&news), now) ==> {
                    &&& final(self).plan.stroke_i == old(self).plan.stroke_i
                    &&& final(self).plan.point_i == old(self).plan.point_i
                    &&& r.1@.len() == 0
                },
            },
    {
        let ghost kind = news_kind(&news);
        let ghost lines = news_lines(&news);
        let mut acts: Vec<PageAction> = Vec::new();
        let mut ink: Vec<WriteOp> = Vec::new();
        match self.phase {
            Phase::Listening { last_pen } => {
                if let Some(t) = last_pen {
                    if !self.pen.pen_down && now >= t && now - t >= IDLE_COMMIT_MS && !ink_empty {
                        if question {
                            acts.push(PageAction::OpenGuide);
                            self.phase = Phase::Help { open: true, until: now + GUIDE_MS };
                        } else {
                            acts.push(PageAction::AskOracle);
                            self.phase = Phase::Drinking { stage: 0, next: now, asked: now };
                        }
                    }
                }
            },
            Phase::Drinking { stage, next, asked } => {
                if now >= next {
                    acts.push(PageAction::DissolveInk { stage, stages: DRINK_STAGES });
                    if stage + 1 >= DRINK_STAGES {
                        acts.push(PageAction::ClearInk);
                        self.phase = Phase::Thinking { pulse: now, blot_on: false, asked };
                    } else {
                        self.phase = Phase::Drinking { stage: stage + 1, next: now + DRINK_STEP_MS, asked };
                    }
                }
            },
            Phase::Thinking { pulse, blot_on, asked } => {
                match news {
                    OracleNews::Chunk(ls) => {
                        acts.push(PageAction::ClearBlot);
                        self.plan = plan_reply(&ls, None);
                        self.phase = Phase::Replying { next: now, streaming: true };
                    },
                    OracleNews::Failed(ls) => {
                        acts.push(PageAction::ClearBlot);
                        self.plan = plan_reply(&ls, None);
                        self.phase = Phase::Replying { next: now, streaming: false };
                    },
                    OracleNews::Closed => {
                        self.phase = Phase::Listening { last_pen: None };
                    },
                    OracleNews::Nothing => {
                        if now >= asked && now - asked >= ORACLE_PATIENCE_MS {
                            acts.push(PageAction::ClearBlot);
                            acts.push(PageAction::AbandonOracle);
                            self.plan = plan_reply(&self.fallback, None);
                            self.phase = Phase::Replying { next: now, streaming: false };
                        } else if now >= pulse && now - pulse >= PULSE_MS {
                            acts.push(
                                if blot_on {
                                    PageAction::ClearBlot
                                } else {
                                    PageAction::StampBlot
                                },
                            );
                            self.phase = Phase::Thinking { pulse: now, blot_on: !blot_on, asked };
                        }
                    },
                }
            },
            Phase::Replying { next, streaming } => {
                let mut still = streaming;
                if streaming {
                    match news {
                        OracleNews::Chunk(ls) => {
                            append_reply(&mut self.plan, &ls);
                        },
                        OracleNews::Failed(_) => {
                            still = false;
                        },
                        OracleNews::Closed => {
                            still = false;
                        },
                        OracleNews::Nothing => {},
                    }
                }
                if now >= next {
                    let ghost before = self.plan;
                    proof {
                        lemma_written_at(before);
                    }
                    ink = self.plan.step(WRITE_BUDGET);
                    proof {
                        lemma_written_at(self.plan);
                    }
                    acts.push(PageAction::WriteReply);
                    if self.plan.is_done() && !still {
                        let points = self.plan.point_count();
                        let linger = linger_ms(points);
                        self.phase = Phase::Lingering { until: now + linger };
                    } else {
                        self.phase = Phase::Replying { next: now + WRITE_STEP_MS, streaming: still };
                    }
                } else {
                    self.phase = Phase::Replying { next, streaming: still };
                }
            },
            Phase::Lingering { until } => {
                if now >= until {
                    self.phase = Phase::FadingReply { stage: 0, next: now };
                }
            },
            Phase::Help { open, until } => {
                if open {
                    if self.pen.stylus_tapped || now >= until {
                        acts.push(PageAction::DismissGuide);
                        self.phase = Phase::Help { open: false, until };
                    }
                } else if !self.pen.stylus_on {
                    self.phase = Phase::Listening { last_pen: None };
                }
            },
            Phase::FadingReply { stage, next } => {
                if now >= next {
                    acts.push(PageAction::DissolveReply { stage, stages: FADE_STAGES });
                    if stage + 1 >= FADE_STAGES {
                        acts.push(PageAction::FullRefresh);
                        self.phase = Phase::Listening { last_pen: None };
                    } else {
                        self.phase = Phase::FadingReply { stage: stage + 1, next: now + FADE_STEP_MS };
                    }
                }
            },
        }
        self.pen.stylus_tapped = false;
        (acts, ink)
    }
}

proof fn lemma_written_at(p: WritePlan)
    ensures
        p.written() == written_at(p.view_strokes(), p.stroke_i as int, p.point_i as int),
{
}


// ---------------------------------------------------------------------------
// Laws of the cycle.
// ---------------------------------------------------------------------------

/// The phases a phase may hand over to: itself, or the next one of the
/// cycle (listening, drinking or the guide, thinking, replying, lingering,
/// fading, listening again).
pub open spec fn follows(p: Phase, q: Phase) -> bool {
    match p {
        Phase::Listening { .. } => q is Listening || q is Drinking || q is Help,
        Phase::Drinking { .. } => q is Drinking || q is Thinking,
        Phase::Thinking { .. } => q is Thinking || q is Replying || q is Listening,
        Phase::Replying { .. } => q is Replying || q is Lingering,
        Phase::Lingering { .. } => q is Lingering || q is FadingReply,
        Phase::FadingReply { .. } => q is FadingReply || q is Listening,
        Phase::Help { .. } => q is Help || q is Listening,
    }
}

/// Law: the page only ever moves around its cycle, whatever the clock,
/// the pen or the oracle do; the oracle is asked only when a resting page
/// is committed, and waited for at most `ORACLE_PATIENCE_MS`; the ink is
/// drunk pass by pass, and the reply fades pass by pass, each pass once
/// and in order.
pub proof fn lemma_cycle(
    phase: Phase,
    pen: PenFeel,
    now: u64,
    ink_empty: bool,
    question: bool,
    news: NewsKind,
    done_after: bool,
    points_after: nat,
)
    ensures
        follows(phase, tick_spec(phase, pen, now, ink_empty, question, news, done_after, points_after).0),
        tick_spec(phase, pen, now, ink_empty, question, news, done_after, points_after).1.contains(
            PageAction::AskOracle,
        ) ==> phase is Listening && tick_spec(
            phase,
            pen,
            now,
            ink_empty,
            question,
            news,
            done_after,
            points_after,
        ).0 is Drinking && !ink_empty && !pen.pen_down,
        phase matches Phase::Thinking { asked, .. } ==> news == NewsKind::Nothing ==> since(now, asked)
            >= ORACLE_PATIENCE_MS ==> tick_spec(
            phase,
            pen,
            now,
            ink_empty,
            question,
            news,
            done_after,
            points_after,
        ).0 is Replying,
        phase matches Phase::Drinking { stage, next, .. } ==> now >= next ==> tick_spec(
            phase,
            pen,
            now,
            ink_empty,
            question,
            news,
            done_after,
            points_after,
        ).1[0] == (PageAction::DissolveInk { stage, stages: DRINK_STAGES }),
        phase matches Phase::FadingReply { stage, next } ==> now >= next ==> tick_spec(
            phase,
            pen,
            now,
            ink_empty,
            question,
            news,
            done_after,
            points_after,
        ).1[0] == (PageAction::DissolveReply { stage, stages: FADE_STAGES }),
{
    let r = tick_spec(phase, pen, now, ink_empty, question, news, done_after, points_after);
    if r.1.contains(PageAction::AskOracle) {
        let k = choose|k: int| 0 <= k < r.1.len() && r.1[k] == PageAction::AskOracle;
        assert(r.1[k] == PageAction::AskOracle);
    }
}

/// Law: the pen never moves the page along its cycle, except that a touch
/// cuts a lingering reply short; and ink goes on the page only while it
/// listens.
pub proof fn lemma_pen_keeps_cycle(
    phase: Phase,
    pen: PenFeel,
    footsteps: bool,
    min_pressure: i32,
    s: PenSample,
    ev: InputEvent,
    now: u64,
)
    ensures
        ({
            let (q, _, acts) = sample_spec(phase, pen, footsteps, min_pressure, s, now);
            &&& q == phase || (phase is Lingering && q == (Phase::FadingReply { stage: 0, next: now }))
                || (phase is Listening && q is Listening)
            &&& !(phase is Listening) ==> forall|i: int|
                0 <= i < acts.len() ==> #[trigger] acts[i] == PageAction::PenUp
        }),
        ({
            let (q, _, acts) = qtfb_spec(phase, pen, footsteps, ev, now);
            &&& q == phase || (phase is Lingering && q == (Phase::FadingReply { stage: 0, next: now }))
                || (phase is Listening && q is Listening)
            &&& !(phase is Listening) ==> forall|i: int|
                0 <= i < acts.len() ==> #[trigger] acts[i] == PageAction::PenUp
        }),
{
}


// ---------------------------------------------------------------------------
// Pushing live ink, and the power button.
// ---------------------------------------------------------------------------

/// Live ink is pushed to the panel at most this often: the takeover
/// engine's swaps are cheap, qtfb's updates need coalescing.
pub const FLUSH_TAKEOVER_MS: u64 = 8;
pub const FLUSH_QTFB_MS: u64 = 35;

pub open spec fn flush_spec(dirty: bool, now: u64, last_flush: u64, takeover: bool) -> bool {
    dirty && since(now, last_flush) >= (if takeover {
        FLUSH_TAKEOVER_MS
    } else {
        FLUSH_QTFB_MS
    })
}

/// Whether the ink drawn since the last push is to be pushed now.
pub fn flush_due(dirty: bool, now: u64, last_flush: u64, takeover: bool) -> (b: bool)
    ensures
        b == flush_spec(dirty, now, last_flush, takeover),
{
    let every = if takeover {
        FLUSH_TAKEOVER_MS
    } else {
        FLUSH_QTFB_MS
    };
    dirty && now >= last_flush && now - last_flush >= every
}

/// After waking, power presses are ignored this long (the waking press
/// and key bounce arrive on the grabbed device).
pub const WAKE_GRACE_MS: u64 = 3000;
/// The sleep page's flashing refresh is let settle this long first.
pub const SLEEP_SETTLE_MS: u64 = 800;
/// Each suspend attempt is watched this long, polling this often.
pub const SUSPEND_WATCH_MS: u64 = 6000;
pub const SUSPEND_POLL_MS: u64 = 400;
/// Suspend is tried at most this many times before the page wakes anyway.
pub const SUSPEND_ATTEMPTS: u32 = 8;

/// Whether a power press puts the diary to sleep: not within the grace
/// period after a wake, which ends at `grace_end`.
pub fn press_sleeps(pressed: bool, now: u64, grace_end: u64) -> (b: bool)
    ensures
        b == (pressed && now >= grace_end),
{
    pressed && now >= grace_end
}

/// When presses count again after a wake at `now`.
pub fn grace_end(now: u64) -> (t: u64)
    requires
        now <= u64::MAX - WAKE_GRACE_MS,
    ensures
        t == now + WAKE_GRACE_MS,
{
    now + WAKE_GRACE_MS
}

/// What the sleep cycle asks next.
#[derive(Debug, Clone, Copy, PartialEq, Eq, Structural)]
pub enum SleepStep {
    /// Wait `SUSPEND_POLL_MS`, then read the suspend counter (`woke`).
    Poll,
    /// Ask the system to suspend again.
    Suspend,
    /// The suspend never happened: wake the page anyway.
    GiveUp,
}

/// Putting the tablet to sleep: the kernel's count of successful suspends
/// when it began, the suspend attempts made, and when the last began. (The
/// e-paper regulator refuses to sleep while its discharge timer runs, so a
/// suspend can abort and is retried.)
#[derive(Debug, Clone, Copy, PartialEq, Eq, Structural)]
pub struct SleepCycle {
    pub count0: u64,
    pub attempts: u32,
    pub started: u64,
}

impl SleepCycle {
    pub open spec fn wf(&self) -> bool {
        1 <= self.attempts <= SUSPEND_ATTEMPTS
    }

    /// The first suspend attempt, at `now`, with the counter at `count0`.
    pub fn begin(count0: u64, now: u64) -> (c: Self)
        ensures
            c.wf(),
            c == (SleepCycle { count0, attempts: 1, started: now }),
    {
        SleepCycle { count0, attempts: 1, started: now }
    }

    /// Whether the counter shows that the tablet slept (and has woken).
    pub fn woke(&self, count: u64) -> (b: bool)
        ensures
            b == (count > self.count0),
    {
        count > self.count0
    }

    /// The next step at `now`: keep polling while the current attempt is
    /// watched; then try again, up to `SUSPEND_ATTEMPTS` attempts in all.
    pub fn next(&mut self, now: u64) -> (step: SleepStep)
        requires
            old(self).wf(),
        ensures
            final(self).wf(),
            final(self).count0 == old(self).count0,
            since(now, old(self).started) < SUSPEND_WATCH_MS ==> step == SleepStep::Poll
                && *final(self) == *old(self),
            since(now, old(self).started) >= SUSPEND_WATCH_MS && old(self).attempts
                >= SUSPEND_ATTEMPTS ==> step == SleepStep::GiveUp && *final(self) == *old(self),
            since(now, old(self).started) >= SUSPEND_WATCH_MS && old(self).attempts
                < SUSPEND_ATTEMPTS ==> step == SleepStep::Suspend && final(self).attempts
                == old(self).attempts + 1 && final(self).started == now,
    {
        if now < self.started || now - self.started < SUSPEND_WATCH_MS {
            SleepStep::Poll
        } else if self.attempts >= SUSPEND_ATTEMPTS {
            SleepStep::GiveUp
        } else {
            self.attempts = self.attempts + 1;
            self.started = now;
            SleepStep::Suspend
        }
    }
}

} // verus!
