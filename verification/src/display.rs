//! Display backends: qtfb (windowed, inside xochitl) and quill (takeover,
//! the vendor engine with xochitl stopped). Each operation on the panel is
//! decided here as the list of backend requests that carry it out.

use vstd::prelude::*;
use crate::qtfb::{
    client_message, request_full_refresh_message, set_refresh_mode_message, terminate_message,
    update_all_message, update_partial_message, MESSAGE_REQUEST_FULL_REFRESH,
    MESSAGE_SET_REFRESH_MODE, MESSAGE_TERMINATE, MESSAGE_UPDATE, REFRESH_MODE_CONTENT,
    REFRESH_MODE_UFAST, UPDATE_ALL, UPDATE_PARTIAL,
};

verus! {

/// The backend the diary draws through.
#[derive(Debug, Clone, Copy, PartialEq, Eq, Structural)]
pub enum Display {
    /// An AppLoad window served over qtfb.
    Qtfb,
    /// The vendor engine, in takeover mode.
    Quill,
}

/// One request to a backend.
#[derive(Debug, Clone, Copy, PartialEq, Eq, Structural)]
pub enum PanelOp {
    /// qtfb: refresh the rectangle at (`x`, `y`) of `w` by `h` pixels.
    Update { x: i32, y: i32, w: i32, h: i32 },
    /// qtfb: refresh the whole window.
    UpdateAll,
    /// qtfb: switch the waveform (the server stalls for a second).
    SetRefreshMode(i32),
    /// qtfb: flashing full refresh (the server stalls for a second).
    RequestFullRefresh,
    /// qtfb: close the window.
    Terminate,
    /// quill: swap a region with waveform `mode`; `full` flashes.
    Swap { x: i32, y: i32, w: i32, h: i32, mode: i32, full: bool },
    /// quill: let the engine process its events.
    ProcessEvents,
}

/// Waveform of a quill swap: 0 is the fastest (ink), 3 balanced (text and
/// animation), 4 the flashing clear.
pub open spec fn quill_mode(fast: bool) -> i32 {
    if fast {
        0
    } else {
        3
    }
}

pub open spec fn update_spec(d: Display, x: i32, y: i32, w: i32, h: i32, fast: bool) -> Seq<PanelOp> {
    match d {
        Display::Qtfb => seq![PanelOp::Update { x, y, w, h }],
        Display::Quill => seq![
            PanelOp::Swap { x, y, w, h, mode: quill_mode(fast), full: false },
            PanelOp::ProcessEvents,
        ],
    }
}

pub open spec fn deghost_spec(d: Display, x: i32, y: i32, w: i32, h: i32) -> Seq<PanelOp> {
    match d {
        Display::Qtfb => seq![
            PanelOp::SetRefreshMode(REFRESH_MODE_CONTENT),
            PanelOp::Update { x, y, w, h },
            PanelOp::SetRefreshMode(REFRESH_MODE_UFAST),
        ],
        Display::Quill => update_spec(d, x, y, w, h, false),
    }
}

impl Display {
    /// Pushes a region to the panel; `fast` selects the low-latency
    /// waveform.
    pub fn update(&self, x: i32, y: i32, w: i32, h: i32, fast: bool) -> (ops: Vec<PanelOp>)
        ensures
            ops@ == update_spec(*self, x, y, w, h, fast),
    {
        match self {
            Display::Qtfb => vec![PanelOp::Update { x, y, w, h }],
            Display::Quill => vec![
                PanelOp::Swap { x, y, w, h, mode: if fast { 0 } else { 3 }, full: false },
                PanelOp::ProcessEvents,
            ],
        }
    }

    /// Pushes the whole `w` by `h` panel.
    pub fn update_all(&self, w: usize, h: usize) -> (ops: Vec<PanelOp>)
        ensures
            ops@ == (match *self {
                Display::Qtfb => seq![PanelOp::UpdateAll],
                Display::Quill => seq![
                    PanelOp::Swap { x: 0, y: 0, w: w as i32, h: h as i32, mode: 3, full: false },
                    PanelOp::ProcessEvents,
                ],
            }),
    {
        match self {
            Display::Qtfb => vec![PanelOp::UpdateAll],
            Display::Quill => vec![
                PanelOp::Swap { x: 0, y: 0, w: w as i32, h: h as i32, mode: 3, full: false },
                PanelOp::ProcessEvents,
            ],
        }
    }

    /// Re-renders a region with the high-quality waveform, then returns to
    /// the low-latency one: clears dithering blotches and fade remnants
    /// without the full-screen flash.
    pub fn deghost(&self, x: i32, y: i32, w: i32, h: i32) -> (ops: Vec<PanelOp>)
        ensures
            ops@ == deghost_spec(*self, x, y, w, h),
    {
        match self {
            Display::Qtfb => vec![
                PanelOp::SetRefreshMode(REFRESH_MODE_CONTENT),
                PanelOp::Update { x, y, w, h },
                PanelOp::SetRefreshMode(REFRESH_MODE_UFAST),
            ],
            Display::Quill => self.update(x, y, w, h, false),
        }
    }

    /// Flashing clear of the whole `w` by `h` panel (ghost removal).
    pub fn full_refresh(&self, w: usize, h: usize) -> (ops: Vec<PanelOp>)
        ensures
            ops@ == (match *self {
                Display::Qtfb => seq![PanelOp::RequestFullRefresh],
                Display::Quill => seq![
                    PanelOp::Swap { x: 0, y: 0, w: w as i32, h: h as i32, mode: 4, full: true },
                    PanelOp::ProcessEvents,
                ],
            }),
    {
        match self {
            Display::Qtfb => vec![PanelOp::RequestFullRefresh],
            Display::Quill => vec![
                PanelOp::Swap { x: 0, y: 0, w: w as i32, h: h as i32, mode: 4, full: true },
                PanelOp::ProcessEvents,
            ],
        }
    }

    /// What draining window-system events asks of the backend besides
    /// reading qtfb's socket: the engine processes its own.
    pub fn pump(&self) -> (ops: Vec<PanelOp>)
        ensures
            ops@ == (match *self {
                Display::Qtfb => Seq::<PanelOp>::empty(),
                Display::Quill => seq![PanelOp::ProcessEvents],
            }),
    {
        match self {
            Display::Qtfb => Vec::new(),
            Display::Quill => vec![PanelOp::ProcessEvents],
        }
    }

    /// Closes the window; the takeover engine has none.
    pub fn terminate(&self) -> (ops: Vec<PanelOp>)
        ensures
            ops@ == (match *self {
                Display::Qtfb => seq![PanelOp::Terminate],
                Display::Quill => Seq::<PanelOp>::empty(),
            }),
    {
        match self {
            Display::Qtfb => vec![PanelOp::Terminate],
            Display::Quill => Vec::new(),
        }
    }
}

/// The qtfb client message that carries a request, if it is one for qtfb.
pub open spec fn op_message(op: PanelOp) -> Option<Seq<u8>> {
    match op {
        PanelOp::Update { x, y, w, h } => Some(
            client_message(MESSAGE_UPDATE, seq![UPDATE_PARTIAL, x, y, w, h]),
        ),
        PanelOp::UpdateAll => Some(client_message(MESSAGE_UPDATE, seq![UPDATE_ALL])),
        PanelOp::SetRefreshMode(m) => Some(client_message(MESSAGE_SET_REFRESH_MODE, seq![m])),
        PanelOp::RequestFullRefresh => Some(
            client_message(MESSAGE_REQUEST_FULL_REFRESH, Seq::empty()),
        ),
        PanelOp::Terminate => Some(client_message(MESSAGE_TERMINATE, Seq::empty())),
        PanelOp::Swap { .. } => None,
        PanelOp::ProcessEvents => None,
    }
}

/// The bytes to send qtfb for a request (`None` for the engine's).
pub fn qtfb_message(op: &PanelOp) -> (m: Option<Vec<u8>>)
    ensures
        match m {
            Some(v) => op_message(*op) == Some(v@),
            None => op_message(*op) is None,
        },
{
    match op {
        PanelOp::Update { x, y, w, h } => Some(update_partial_message(*x, *y, *w, *h)),
        PanelOp::UpdateAll => Some(update_all_message()),
        PanelOp::SetRefreshMode(m) => Some(set_refresh_mode_message(*m)),
        PanelOp::RequestFullRefresh => Some(request_full_refresh_message()),
        PanelOp::Terminate => Some(terminate_message()),
        PanelOp::Swap { .. } => None,
        PanelOp::ProcessEvents => None,
    }
}

/// Law: on qtfb, de-ghosting redraws the region with the high-quality
/// waveform and leaves the low-latency one in force for the ink that
/// follows; every request it makes has a qtfb message.
pub proof fn lemma_deghost_restores_fast(x: i32, y: i32, w: i32, h: i32)
    ensures
        deghost_spec(Display::Qtfb, x, y, w, h).len() == 3,
        deghost_spec(Display::Qtfb, x, y, w, h)[0] == PanelOp::SetRefreshMode(REFRESH_MODE_CONTENT),
        deghost_spec(Display::Qtfb, x, y, w, h)[1] == (PanelOp::Update { x, y, w, h }),
        deghost_spec(Display::Qtfb, x, y, w, h).last() == PanelOp::SetRefreshMode(
            REFRESH_MODE_UFAST,
        ),
        forall|i: int|
            0 <= i < deghost_spec(Display::Qtfb, x, y, w, h).len() ==> (op_message(
                #[trigger] deghost_spec(Display::Qtfb, x, y, w, h)[i],
            ) is Some),
{
}

} // verus!
