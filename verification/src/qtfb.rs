//! The qtfb wire format (rm-appload's `common.h`): client messages are 24
//! bytes, a type byte at 0 and 32-bit words from byte 4; server messages are
//! 32 bytes, a type byte at 0 and the (i32-aligned) payload from byte 4. All
//! integers are little-endian.

use vstd::prelude::*;

verus! {

pub const MESSAGE_INITIALIZE: u8 = 0;
pub const MESSAGE_UPDATE: u8 = 1;
pub const MESSAGE_CUSTOM_INITIALIZE: u8 = 2;
pub const MESSAGE_TERMINATE: u8 = 3;
pub const MESSAGE_USERINPUT: u8 = 4;
pub const MESSAGE_SET_REFRESH_MODE: u8 = 5;
pub const MESSAGE_REQUEST_FULL_REFRESH: u8 = 6;

pub const UPDATE_ALL: i32 = 0;
pub const UPDATE_PARTIAL: i32 = 1;

/// FBFMT_RMPP_RGB565: native 1620x2160, 2 bytes/pixel, stride = 3240.
pub const FBFMT_RMPP_RGB565: u8 = 3;

pub const REFRESH_MODE_UFAST: i32 = 0;
/// GC16-quality waveform: slow, but renders true grays and clears ghosting.
pub const REFRESH_MODE_CONTENT: i32 = 3;
pub const REFRESH_MODE_FAST: i32 = 1;

// Input event types (server -> client).
pub const INPUT_TOUCH_PRESS: i32 = 0x10;
pub const INPUT_TOUCH_RELEASE: i32 = 0x11;
pub const INPUT_TOUCH_UPDATE: i32 = 0x12;
pub const INPUT_PEN_PRESS: i32 = 0x20;
pub const INPUT_PEN_RELEASE: i32 = 0x21;
pub const INPUT_PEN_UPDATE: i32 = 0x22;
pub const INPUT_VKB_PRESS: i32 = 0x40;
pub const INPUT_VKB_RELEASE: i32 = 0x41;

/// Bytes in a client message.
pub const CLIENT_MESSAGE_LEN: usize = 24;
/// Bytes in a server message.
pub const SERVER_MESSAGE_LEN: usize = 32;

/// A user input event relayed by the server.
#[derive(Debug, Clone, Copy)]
pub struct InputEvent {
    pub input_type: i32,
    pub dev_id: i32,
    pub x: i32,
    pub y: i32,
    pub d: i32,
}

// ---------------------------------------------------------------------------
// Little-endian words.
// ---------------------------------------------------------------------------

/// The four little-endian bytes of `v`.
pub open spec fn le_bytes(v: u32) -> Seq<u8> {
    seq![(v % 256) as u8, ((v / 256) % 256) as u8, ((v / 65536) % 256) as u8, (v / 16777216) as u8]
}

/// The little-endian word at `b[at..at + 4]`.
pub open spec fn le_word(b: Seq<u8>, at: int) -> u32 {
    (b[at] + b[at + 1] * 256 + b[at + 2] * 65536 + b[at + 3] * 16777216) as u32
}

/// The little-endian `i32` at `b[at..at + 4]`.
pub open spec fn le_i32(b: Seq<u8>, at: int) -> i32 {
    le_word(b, at) as i32
}

/// The bytes of a sequence of words, one after the other.
pub open spec fn words_bytes(w: Seq<i32>) -> Seq<u8>
    decreases w.len(),
{
    if w.len() == 0 {
        Seq::empty()
    } else {
        words_bytes(w.drop_last()) + le_bytes(w.last() as u32)
    }
}

/// A client message of type `t` carrying the words `w` from byte 4, padded
/// with zeros to 24 bytes.
pub open spec fn client_message(t: u8, w: Seq<i32>) -> Seq<u8> {
    let body = seq![t, 0u8, 0u8, 0u8] + words_bytes(w);
    body + Seq::new((24 - body.len()) as nat, |i: int| 0u8)
}

proof fn lemma_words_bytes_len(w: Seq<i32>)
    ensures
        words_bytes(w).len() == 4 * w.len(),
    decreases w.len(),
{
    if w.len() > 0 {
        lemma_words_bytes_len(w.drop_last());
    }
}

fn push_le(out: &mut Vec<u8>, v: u32)
    ensures
        final(out)@ == old(out)@ + le_bytes(v),
{
    let ghost o = out@;
    out.push((v % 256) as u8);
    out.push(((v / 256) % 256) as u8);
    out.push(((v / 65536) % 256) as u8);
    out.push((v / 16777216) as u8);
    assert(out@ =~= o + le_bytes(v));
}

fn message(t: u8, words: &[i32]) -> (m: Vec<u8>)
    requires
        words@.len() <= 5,
    ensures
        m@ == client_message(t, words@),
        m@.len() == CLIENT_MESSAGE_LEN,
{
    let mut m: Vec<u8> = Vec::new();
    m.push(t);
    m.push(0);
    m.push(0);
    m.push(0);
    let mut i: usize = 0;
    while i < words.len()
        invariant
            i <= words@.len() <= 5,
            m@ == seq![t, 0u8, 0u8, 0u8] + words_bytes(words@.take(i as int)),
        decreases words@.len() - i,
    {
        let ghost before = m@;
        push_le(&mut m, words[i] as u32);
        proof {
            let t1 = words@.take(i + 1);
            assert(t1.drop_last() =~= words@.take(i as int));
            assert(t1.last() == words@[i as int]);
            assert(m@ =~= seq![t, 0u8, 0u8, 0u8] + words_bytes(t1));
        }
        i = i + 1;
    }
    assert(words@.take(words@.len() as int) =~= words@);
    proof {
        lemma_words_bytes_len(words@);
    }
    let ghost body = m@;
    while m.len() < CLIENT_MESSAGE_LEN
        invariant
            body.len() <= m@.len() <= CLIENT_MESSAGE_LEN,
            m@ == body + Seq::new((m@.len() - body.len()) as nat, |i: int| 0u8),
        decreases CLIENT_MESSAGE_LEN - m@.len(),
    {
        let ghost before = m@;
        m.push(0);
        assert(m@ =~= body + Seq::new((m@.len() - body.len()) as nat, |i: int| 0u8));
    }
    m
}

// ---------------------------------------------------------------------------
// Client messages.
// ---------------------------------------------------------------------------

/// MESSAGE_INITIALIZE: the key at 4, the pixel format at 8.
pub fn init_message(key: i32, format: u8) -> (m: Vec<u8>)
    ensures
        m@ == client_message(MESSAGE_INITIALIZE, seq![key, format as i32]),
{
    let w = [key, format as i32];
    assert(w@ =~= seq![key, format as i32]);
    message(MESSAGE_INITIALIZE, &w)
}

/// MESSAGE_UPDATE of the whole screen.
pub fn update_all_message() -> (m: Vec<u8>)
    ensures
        m@ == client_message(MESSAGE_UPDATE, seq![UPDATE_ALL]),
{
    let w = [UPDATE_ALL];
    assert(w@ =~= seq![UPDATE_ALL]);
    message(MESSAGE_UPDATE, &w)
}

/// MESSAGE_UPDATE of the rectangle at (`x`, `y`) of `w` by `h` pixels.
pub fn update_partial_message(x: i32, y: i32, w: i32, h: i32) -> (m: Vec<u8>)
    ensures
        m@ == client_message(MESSAGE_UPDATE, seq![UPDATE_PARTIAL, x, y, w, h]),
{
    let words = [UPDATE_PARTIAL, x, y, w, h];
    assert(words@ =~= seq![UPDATE_PARTIAL, x, y, w, h]);
    message(MESSAGE_UPDATE, &words)
}

/// MESSAGE_SET_REFRESH_MODE (the server stalls for a second after it).
pub fn set_refresh_mode_message(mode: i32) -> (m: Vec<u8>)
    ensures
        m@ == client_message(MESSAGE_SET_REFRESH_MODE, seq![mode]),
{
    let w = [mode];
    assert(w@ =~= seq![mode]);
    message(MESSAGE_SET_REFRESH_MODE, &w)
}

/// MESSAGE_REQUEST_FULL_REFRESH (the server stalls for a second after it).
pub fn request_full_refresh_message() -> (m: Vec<u8>)
    ensures
        m@ == client_message(MESSAGE_REQUEST_FULL_REFRESH, Seq::empty()),
{
    let w: [i32; 0] = [];
    assert(w@ =~= Seq::<i32>::empty());
    message(MESSAGE_REQUEST_FULL_REFRESH, &w)
}

/// MESSAGE_TERMINATE.
pub fn terminate_message() -> (m: Vec<u8>)
    ensures
        m@ == client_message(MESSAGE_TERMINATE, Seq::empty()),
{
    let w: [i32; 0] = [];
    assert(w@ =~= Seq::<i32>::empty());
    message(MESSAGE_TERMINATE, &w)
}

// ---------------------------------------------------------------------------
// Server messages.
// ---------------------------------------------------------------------------

fn read_word(b: &[u8], at: usize) -> (v: u32)
    requires
        at + 4 <= b@.len(),
    ensures
        v == le_word(b@, at as int),
{
    let b0 = b[at] as u32;
    let b1 = b[at + 1] as u32;
    let b2 = b[at + 2] as u32;
    let b3 = b[at + 3] as u32;
    assert(b0 + b1 * 256 + b2 * 65536 + b3 * 16777216 <= u32::MAX) by (nonlinear_arith)
        requires
            b0 < 256,
            b1 < 256,
            b2 < 256,
            b3 < 256,
    ;
    b0 + b1 * 256 + b2 * 65536 + b3 * 16777216
}

fn read_i32(b: &[u8], at: usize) -> (v: i32)
    requires
        at + 4 <= b@.len(),
    ensures
        v == le_i32(b@, at as int),
{
    read_word(b, at) as i32
}

/// The reply to MESSAGE_INITIALIZE: the shared memory key (i32 at 4) and
/// its size (u32 at 8).
pub fn init_reply_fields(reply: &[u8]) -> (r: (i32, u32))
    requires
        reply@.len() >= 12,
    ensures
        r == (le_i32(reply@, 4), le_word(reply@, 8)),
{
    (read_i32(reply, 4), read_word(reply, 8))
}

/// Whether a shared framebuffer of `shm_size` bytes holds `width` by
/// `height` pixels of `bpp` bytes.
pub fn shm_large_enough(shm_size: usize, width: usize, height: usize, bpp: usize) -> (b: bool)
    requires
        width * height <= usize::MAX,
        width * height * bpp <= usize::MAX,
    ensures
        b == (shm_size >= width * height * bpp),
{
    shm_size >= width * height * bpp
}

/// The input event a server message carries: one of type
/// MESSAGE_USERINPUT of at least 24 bytes (`n` is how many arrived), with
/// the event's type, device, x, y and d as i32 at 4, 8, 12, 16 and 20.
pub fn input_event_of(buf: &[u8], n: usize) -> (r: Option<InputEvent>)
    requires
        buf@.len() == SERVER_MESSAGE_LEN,
    ensures
        r == (if buf@[0] == MESSAGE_USERINPUT && n >= 24 {
            Some(
                InputEvent {
                    input_type: le_i32(buf@, 4),
                    dev_id: le_i32(buf@, 8),
                    x: le_i32(buf@, 12),
                    y: le_i32(buf@, 16),
                    d: le_i32(buf@, 20),
                },
            )
        } else {
            None
        }),
{
    if buf[0] == MESSAGE_USERINPUT && n >= 24 {
        Some(
            InputEvent {
                input_type: read_i32(buf, 4),
                dev_id: read_i32(buf, 8),
                x: read_i32(buf, 12),
                y: read_i32(buf, 16),
                d: read_i32(buf, 20),
            },
        )
    } else {
        None
    }
}

// ---------------------------------------------------------------------------
// Law: a word written little-endian reads back as itself.
// ---------------------------------------------------------------------------

proof fn lemma_le_word_bytes(v: u32)
    ensures
        le_word(le_bytes(v), 0) == v,
{
    let b = le_bytes(v);
    let q1 = v / 256;
    let q2 = v / 65536;
    let q3 = v / 16777216;
    assert(q2 == q1 / 256);
    assert(q3 == q2 / 256);
    assert(b[0] == v % 256 && b[1] == q1 % 256 && b[2] == q2 % 256 && b[3] == q3);
}

/// Law: every word a client message carries reads back, little-endian, at
/// its place (byte `4 + 4k` for word `k`), and the type byte leads.
pub proof fn lemma_client_message_words(t: u8, w: Seq<i32>)
    requires
        w.len() <= 5,
    ensures
        client_message(t, w).len() == CLIENT_MESSAGE_LEN,
        client_message(t, w)[0] == t,
        forall|k: int| 0 <= k < w.len() ==> #[trigger] le_i32(client_message(t, w), 4 + 4 * k) == w[k],
    decreases w.len(),
{
    lemma_words_bytes_len(w);
    let m = client_message(t, w);
    if w.len() > 0 {
        let w0 = w.drop_last();
        lemma_client_message_words(t, w0);
        lemma_words_bytes_len(w0);
        let m0 = client_message(t, w0);
        assert forall|k: int| 0 <= k < w.len() implies #[trigger] le_i32(m, 4 + 4 * k) == w[k] by {
            if k < w0.len() {
                assert(le_i32(m0, 4 + 4 * k) == w0[k]);
                assert(m[4 + 4 * k] == m0[4 + 4 * k]);
                assert(m[4 + 4 * k + 1] == m0[4 + 4 * k + 1]);
                assert(m[4 + 4 * k + 2] == m0[4 + 4 * k + 2]);
                assert(m[4 + 4 * k + 3] == m0[4 + 4 * k + 3]);
            } else {
                let v = w.last() as u32;
                lemma_le_word_bytes(v);
                let at = 4 + 4 * k;
                assert(m[at] == le_bytes(v)[0]);
                assert(m[at + 1] == le_bytes(v)[1]);
                assert(m[at + 2] == le_bytes(v)[2]);
                assert(m[at + 3] == le_bytes(v)[3]);
                assert(le_word(m, at) == le_word(le_bytes(v), 0));
                let x = w.last();
                assert((x as u32) as i32 == x) by (bit_vector);
            }
        }
    }
}

} // verus!
