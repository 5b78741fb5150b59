//! The enchanted diary's verified core: the oracle's requests and the
//! parser of its streamed replies, the memory of past pages, spoken dates,
//! the pen, touch and qtfb wire formats, the display requests, the page
//! decisions (footprints, reply layout, the writing animation) and the
//! page's cycle from ink to reply and back.

pub mod calendar;
pub mod diary;
pub mod display;
pub mod json;
pub mod memory;
pub mod num;
pub mod oracle;
pub mod page;
pub mod parser;
pub mod pen;
pub mod qtfb;
pub mod strokes;
pub mod text;
pub mod touch;
