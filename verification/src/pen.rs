//! The pen: raw evdev events of the digitizer folded into one sample per
//! report frame, and digitizer coordinates mapped onto the screen. Gives
//! 0-4096 pressure, the contact state and the eraser tip at the hardware
//! event rate.

use vstd::prelude::*;
use crate::num::parse_signed;
use crate::text::chars_of;

verus! {

/// The panel, in pixels.
pub const SCREEN_W: i32 = 1620;
pub const SCREEN_H: i32 = 2160;

/// Digitizer axis ranges (the Paper Pro's "Elan marker input").
pub const DIGI_MAX_X: i32 = 11180;
pub const DIGI_MAX_Y: i32 = 15340;
pub const MAX_PRESSURE: i32 = 4096;

/// Minimum pressure to count as writing, unless the writer tunes it.
pub const DEFAULT_MIN_PRESSURE: i32 = 40;

/// Size of one `struct input_event` on a 64-bit kernel (two `long`s of
/// timestamp, then type u16, code u16, value i32), and where its type sits.
pub const EV_SIZE: usize = 24;
pub const EV_OFF: usize = 16;

pub const EV_SYN: u16 = 0;
pub const EV_KEY: u16 = 1;
pub const EV_ABS: u16 = 3;
pub const SYN_REPORT: u16 = 0;
pub const ABS_X: u16 = 0;
pub const ABS_Y: u16 = 1;
pub const ABS_PRESSURE: u16 = 24;
pub const BTN_TOOL_PEN: u16 = 320;
pub const BTN_TOOL_RUBBER: u16 = 321;
pub const BTN_TOUCH: u16 = 330;

#[derive(Debug, Clone, Copy, PartialEq, Eq, Structural)]
pub enum Tool {
    Pen,
    Eraser,
}

#[derive(Debug, Clone, Copy)]
pub struct PenSample {
    /// Screen coordinates.
    pub x: i32,
    pub y: i32,
    /// 0..4096
    pub pressure: i32,
    pub tool: Tool,
    pub touching: bool,
}

// ---------------------------------------------------------------------------
// Event records.
// ---------------------------------------------------------------------------

/// An evdev record read back: (type, code, value), little-endian at
/// `EV_OFF`, `EV_OFF + 2` and `EV_OFF + 4`.
pub open spec fn event_fields(chunk: Seq<u8>) -> (u16, u16, i32) {
    let o = EV_OFF as int;
    (
        (chunk[o] + chunk[o + 1] * 256) as u16,
        (chunk[o + 2] + chunk[o + 3] * 256) as u16,
        crate::qtfb::le_i32(chunk, o + 4),
    )
}

/// The (type, code, value) of one evdev record of `EV_SIZE` bytes.
pub fn decode_event(chunk: &[u8]) -> (r: (u16, u16, i32))
    requires
        chunk@.len() == EV_SIZE,
    ensures
        r == event_fields(chunk@),
{
    let etype = chunk[EV_OFF] as u16 + chunk[EV_OFF + 1] as u16 * 256;
    let code = chunk[EV_OFF + 2] as u16 + chunk[EV_OFF + 3] as u16 * 256;
    let v0 = chunk[EV_OFF + 4] as u32;
    let v1 = chunk[EV_OFF + 5] as u32;
    let v2 = chunk[EV_OFF + 6] as u32;
    let v3 = chunk[EV_OFF + 7] as u32;
    assert(v0 + v1 * 256 + v2 * 65536 + v3 * 16777216 <= u32::MAX) by (nonlinear_arith)
        requires
            v0 < 256,
            v1 < 256,
            v2 < 256,
            v3 < 256,
    ;
    let value = (v0 + v1 * 256 + v2 * 65536 + v3 * 16777216) as i32;
    (etype, code, value)
}

// ---------------------------------------------------------------------------
// Digitizer to screen.
// ---------------------------------------------------------------------------

/// Integer division rounding toward zero, as Rust's `/` does.
pub open spec fn trunc_div(a: int, b: int) -> int {
    if a >= 0 {
        a / b
    } else {
        -((-a) / b)
    }
}

/// Whether the scaling products of raw coordinates fit an `i32`.
pub open spec fn map_fits(raw_x: i32, raw_y: i32) -> bool {
    &&& i32::MIN <= raw_x * (SCREEN_W - 1) <= i32::MAX
    &&& i32::MIN <= raw_y * (SCREEN_H - 1) <= i32::MAX
}

/// The screen point of a raw digitizer point.
pub open spec fn screen_of(raw_x: i32, raw_y: i32) -> (int, int) {
    (
        trunc_div(raw_x * (SCREEN_W - 1), DIGI_MAX_X as int),
        trunc_div(raw_y * (SCREEN_H - 1), DIGI_MAX_Y as int),
    )
}

fn scale(raw: i32, span: i32, max: i32) -> (r: i32)
    requires
        0 < span,
        0 < max,
        span <= max,
        i32::MIN <= raw * span <= i32::MAX,
    ensures
        r == trunc_div(raw * span, max as int),
{
    let p = raw as i64 * span as i64;
    if p >= 0 {
        assert(p / (max as i64) <= p);
        (p / max as i64) as i32
    } else {
        let q = (-p) / (max as i64);
        assert(q <= -p);
        (-q) as i32
    }
}

/// Maps raw digitizer coordinates to screen pixels (the axes run straight
/// through on this panel).
pub fn map_to_screen(raw_x: i32, raw_y: i32) -> (r: (i32, i32))
    requires
        map_fits(raw_x, raw_y),
    ensures
        (r.0 as int, r.1 as int) == screen_of(raw_x, raw_y),
{
    (scale(raw_x, SCREEN_W - 1, DIGI_MAX_X), scale(raw_y, SCREEN_H - 1, DIGI_MAX_Y))
}

/// Law: a point inside the digitizer's range lands on the screen.
pub proof fn lemma_map_onto_screen(raw_x: i32, raw_y: i32)
    requires
        0 <= raw_x <= DIGI_MAX_X,
        0 <= raw_y <= DIGI_MAX_Y,
    ensures
        map_fits(raw_x, raw_y),
        0 <= screen_of(raw_x, raw_y).0 < SCREEN_W,
        0 <= screen_of(raw_x, raw_y).1 < SCREEN_H,
{
    assert(raw_x * 1619 <= 11180 * 1619) by (nonlinear_arith)
        requires
            0 <= raw_x <= 11180,
    ;
    assert(raw_y * 2159 <= 15340 * 2159) by (nonlinear_arith)
        requires
            0 <= raw_y <= 15340,
    ;
    assert(0 <= raw_x * 1619) by (nonlinear_arith)
        requires
            0 <= raw_x,
    ;
    assert(0 <= raw_y * 2159) by (nonlinear_arith)
        requires
            0 <= raw_y,
    ;
}

/// The pressure floor for writing: `setting` read as an `i32` when it is
/// one, else `DEFAULT_MIN_PRESSURE`.
pub open spec fn min_pressure_spec(setting: Option<Seq<char>>) -> i32 {
    match setting {
        Some(s) => match parse_signed(s) {
            Some(v) => if i32::MIN <= v <= i32::MAX {
                v as i32
            } else {
                DEFAULT_MIN_PRESSURE
            },
            None => DEFAULT_MIN_PRESSURE,
        },
        None => DEFAULT_MIN_PRESSURE,
    }
}

/// The minimum pressure that counts as writing, from the writer's setting
/// (`RIDDLE_PEN_MIN_PRESSURE`) when there is one.
pub fn min_pressure(setting: Option<&str>) -> (p: i32)
    ensures
        p == min_pressure_spec(
            match setting {
                Some(s) => Some(s@),
                None => None,
            },
        ),
{
    match setting {
        Some(s) => {
            let cs = chars_of(s);
            assert(cs@.subrange(0, cs@.len() as int) =~= s@);
            match crate::num::parse_i32(&cs, 0, cs.len()) {
                Some(v) => v,
                None => DEFAULT_MIN_PRESSURE,
            }
        },
        None => DEFAULT_MIN_PRESSURE,
    }
}

/// Whether a sample is writing on the page: in contact and pressing harder
/// than the floor.
pub open spec fn writing_spec(s: PenSample, min_pressure: i32) -> bool {
    s.touching && s.pressure > min_pressure
}

pub fn is_writing(s: &PenSample, min_pressure: i32) -> (b: bool)
    ensures
        b == writing_spec(*s, min_pressure),
{
    s.touching && s.pressure > min_pressure
}

/// The ink radius of a pen sample: 2 pixels, plus up to 3 more with
/// pressure over the digitizer's range.
pub fn ink_radius(pressure: i32) -> (r: i32)
    requires
        i32::MIN <= pressure * 3 <= i32::MAX,
    ensures
        r == 2 + trunc_div(pressure * 3, MAX_PRESSURE as int),
        0 <= pressure <= MAX_PRESSURE ==> 2 <= r <= 5,
{
    let p3 = pressure * 3;
    let q = p3 / MAX_PRESSURE;
    assert(q == trunc_div(p3 as int, MAX_PRESSURE as int)) by {
        if p3 < 0 {
            assert(-(p3 as int) / 4096 >= 0);
        }
    }
    2 + q
}

// ---------------------------------------------------------------------------
// Folding events into samples.
// ---------------------------------------------------------------------------

/// What the pen has reported since the last frame.
#[derive(Clone, Copy)]
pub struct PenState {
    pub raw_x: i32,
    pub raw_y: i32,
    pub pressure: i32,
    pub tool: Tool,
    pub touching: bool,
    /// Something changed since the last sample.
    pub dirty: bool,
}

/// Whether `(etype, code)` ends a frame.
pub open spec fn is_report(etype: u16, code: u16) -> bool {
    etype == EV_SYN && code == SYN_REPORT
}

/// The state after one event, and the sample it completes: a report frame
/// yields one sample when something changed since the previous one.
pub open spec fn pen_step(s: PenState, etype: u16, code: u16, value: i32) -> (
    PenState,
    Option<PenSample>,
) {
    if etype == EV_ABS && code == ABS_X {
        (PenState { raw_x: value, dirty: true, ..s }, None)
    } else if etype == EV_ABS && code == ABS_Y {
        (PenState { raw_y: value, dirty: true, ..s }, None)
    } else if etype == EV_ABS && code == ABS_PRESSURE {
        (PenState { pressure: value, dirty: true, ..s }, None)
    } else if etype == EV_KEY && code == BTN_TOOL_PEN {
        (if value == 1 {
            PenState { tool: Tool::Pen, ..s }
        } else {
            s
        }, None)
    } else if etype == EV_KEY && code == BTN_TOOL_RUBBER {
        (PenState {
            tool: if value == 1 {
                Tool::Eraser
            } else {
                Tool::Pen
            },
            ..s
        }, None)
    } else if etype == EV_KEY && code == BTN_TOUCH {
        (PenState { touching: value == 1, dirty: true, ..s }, None)
    } else if is_report(etype, code) && s.dirty {
        let (x, y) = screen_of(s.raw_x, s.raw_y);
        (
            PenState { dirty: false, ..s },
            Some(
                PenSample {
                    x: x as i32,
                    y: y as i32,
                    pressure: s.pressure,
                    tool: s.tool,
                    touching: s.touching,
                },
            ),
        )
    } else {
        (s, None)
    }
}

/// Whether feeding the event can map the pending point (a report frame
/// with something changed needs the raw point to scale within an `i32`).
pub open spec fn feed_ok(s: PenState, etype: u16, code: u16) -> bool {
    is_report(etype, code) && s.dirty ==> map_fits(s.raw_x, s.raw_y)
}

impl PenState {
    /// No contact, the pen tip, nothing pending.
    pub fn new() -> (s: Self)
        ensures
            s == (PenState {
                raw_x: 0,
                raw_y: 0,
                pressure: 0,
                tool: Tool::Pen,
                touching: false,
                dirty: false,
            }),
    {
        PenState { raw_x: 0, raw_y: 0, pressure: 0, tool: Tool::Pen, touching: false, dirty: false }
    }

    /// Whether `feed` may take this event now (see `feed_ok`).
    pub fn can_feed(&self, etype: u16, code: u16) -> (b: bool)
        ensures
            b == feed_ok(*self, etype, code),
    {
        if etype == EV_SYN && code == SYN_REPORT && self.dirty {
            let px = self.raw_x as i64 * 1619;
            let py = self.raw_y as i64 * 2159;
            i32::MIN as i64 <= px && px <= i32::MAX as i64 && i32::MIN as i64 <= py && py
                <= i32::MAX as i64
        } else {
            true
        }
    }

    /// Takes one event; returns the sample it completes, if any.
    pub fn feed(&mut self, etype: u16, code: u16, value: i32) -> (r: Option<PenSample>)
        requires
            feed_ok(*old(self), etype, code),
        ensures
            (*final(self), r) == pen_step(*old(self), etype, code, value),
    {
        if etype == EV_ABS && code == ABS_X {
            self.raw_x = value;
            self.dirty = true;
        } else if etype == EV_ABS && code == ABS_Y {
            self.raw_y = value;
            self.dirty = true;
        } else if etype == EV_ABS && code == ABS_PRESSURE {
            self.pressure = value;
            self.dirty = true;
        } else if etype == EV_KEY && code == BTN_TOOL_PEN {
            if value == 1 {
                self.tool = Tool::Pen;
            }
        } else if etype == EV_KEY && code == BTN_TOOL_RUBBER {
            self.tool = if value == 1 {
                Tool::Eraser
            } else {
                Tool::Pen
            };
        } else if etype == EV_KEY && code == BTN_TOUCH {
            self.touching = value == 1;
            self.dirty = true;
        } else if etype == EV_SYN && code == SYN_REPORT && self.dirty {
            self.dirty = false;
            let (x, y) = map_to_screen(self.raw_x, self.raw_y);
            return Some(
                PenSample {
                    x,
                    y,
                    pressure: self.pressure,
                    tool: self.tool,
                    touching: self.touching,
                },
            );
        }
        None
    }
}

/// Law: between two report frames at most one sample comes out, and a
/// sample carries the last pressure, tool and contact reported.
pub proof fn lemma_sample_on_report(s: PenState, etype: u16, code: u16, value: i32)
    ensures
        pen_step(s, etype, code, value).1 is Some ==> is_report(etype, code) && s.dirty,
        pen_step(s, etype, code, value).1 is Some ==> !pen_step(s, etype, code, value).0.dirty,
        pen_step(s, etype, code, value).1 matches Some(p) ==> p.pressure == s.pressure && p.tool
            == s.tool && p.touching == s.touching,
{
}

/// Law: every move of the pen, every change of pressure and every touch
/// or lift is reported: after an `ABS_X`, `ABS_Y` or `ABS_PRESSURE` event,
/// or a `BTN_TOUCH` key, whatever the state before, the next report frame
/// yields a sample at the last reported raw point mapped onto the screen,
/// with the last reported pressure and contact.
pub proof fn lemma_change_reported(
    s: PenState,
    etype: u16,
    code: u16,
    value: i32,
    report_value: i32,
)
    requires
        (etype == EV_ABS && (code == ABS_X || code == ABS_Y || code == ABS_PRESSURE)) || (etype
            == EV_KEY && code == BTN_TOUCH),
    ensures
        ({
            let s1 = pen_step(s, etype, code, value).0;
            let abs = etype == EV_ABS;
            let nx = if abs && code == ABS_X { value } else { s.raw_x };
            let ny = if abs && code == ABS_Y { value } else { s.raw_y };
            let np = if abs && code == ABS_PRESSURE { value } else { s.pressure };
            let nt = if !abs { value == 1 } else { s.touching };
            match pen_step(s1, EV_SYN, SYN_REPORT, report_value).1 {
                Some(p) => p.x == screen_of(nx, ny).0 as i32 && p.y == screen_of(nx, ny).1 as i32
                    && p.pressure == np && p.tool == s.tool && p.touching == nt,
                None => false,
            }
        }),
{
}

} // verus!
