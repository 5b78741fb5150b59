//! The reply stream parser. The model's reply arrives as a growing text;
//! the parser turns it into what the diary does: ink sentence by sentence,
//! conjure a remembered page (`⟦show:N⟧`), and take the `⁂` transcription
//! postscript at the end.

use vstd::prelude::*;
use crate::num::{parse_u64, parse_unsigned};
use crate::text::{
    ascii_lower, ascii_lower_exec, char_is_ws, chars_of, collapse_ws, collapse_ws_exec,
    find_char, find_char_exec, find_char_from, find_char_range, first_at, is_ws, last_before,
    lemma_collapse_state, lemma_first_at, lemma_first_at_is, lemma_first_at_none,
    lemma_last_before, string_of, trim, trim_bounds, trim_start, trim_start_bound,
    utf8_char_len_exec, utf8_len, copy_range,
};

verus! {

broadcast use vstd::string::group_string_axioms;

/// `⁂`: the transcription postscript follows it.
pub const SENTINEL: char = '\u{2042}';

/// `⟦`: opens a directive.
pub const SHOW_OPEN: char = '\u{27e6}';

/// `⟧`: closes a directive.
pub const SHOW_CLOSE: char = '\u{27e7}';

/// What the oracle streams back to the diary.
#[derive(Debug, PartialEq, Eq)]
pub enum Event {
    /// A sentence (or more) of Tom's reply: ink it.
    Ink(String),
    /// Conjure a remembered page instead of replying.
    Show(u64),
    /// The transcription postscript (arrives once, at the end).
    Transcript(String),
}

/// An event as the contracts speak of it.
pub enum EventV {
    Ink(Seq<char>),
    Show(u64),
    Transcript(Seq<char>),
}

impl View for Event {
    type V = EventV;

    open spec fn view(&self) -> EventV {
        match self {
            Event::Ink(s) => EventV::Ink(s@),
            Event::Show(id) => EventV::Show(*id),
            Event::Transcript(s) => EventV::Transcript(s@),
        }
    }
}

/// What one `advance` hands out, as the contracts speak of it.
pub type OutV = Result<EventV, Seq<char>>;

pub open spec fn out_view(r: Result<Event, String>) -> OutV {
    match r {
        Ok(e) => Ok(e@),
        Err(s) => Err(s@),
    }
}

pub open spec fn outs_view(v: Seq<Result<Event, String>>) -> Seq<OutV> {
    v.map_values(|r: Result<Event, String>| out_view(r))
}

// ---------------------------------------------------------------------------
// Cleaning a reply fragment.
// ---------------------------------------------------------------------------

/// `s` trimmed, then without one leading and one trailing `"`.
pub open spec fn clean_spec(s: Seq<char>) -> Seq<char> {
    let t = trim(s);
    let t1 = if t.len() > 0 && t[0] == '"' {
        t.drop_first()
    } else {
        t
    };
    if t1.len() > 0 && t1.last() == '"' {
        t1.drop_last()
    } else {
        t1
    }
}

fn clean_range(s: &[char], lo: usize, hi: usize) -> (r: Vec<char>)
    requires
        lo <= hi <= s@.len(),
    ensures
        r@ == clean_spec(s@.subrange(lo as int, hi as int)),
{
    let (a, b) = trim_bounds(s, lo, hi);
    let mut a2 = a;
    if a < b && s[a] == '"' {
        a2 = a + 1;
    }
    let mut b2 = b;
    if a2 < b && s[b - 1] == '"' {
        b2 = b - 1;
    }
    proof {
        let t = s@.subrange(a as int, b as int);
        let t1 = if t.len() > 0 && t[0] == '"' {
            t.drop_first()
        } else {
            t
        };
        assert(t1 =~= s@.subrange(a2 as int, b as int));
        if t1.len() > 0 && t1.last() == '"' {
            assert(t1.drop_last() =~= s@.subrange(a2 as int, b2 as int));
        } else {
            assert(t1 =~= s@.subrange(a2 as int, b2 as int));
        }
    }
    copy_range(s, a2, b2)
}

/// Trims and strips stray surrounding quotes from a reply fragment.
pub fn clean(s: &str) -> (r: String)
    ensures
        r@ == clean_spec(s@),
{
    let cs = chars_of(s);
    let v = clean_range(&cs, 0, cs.len());
    assert(cs@.subrange(0, cs@.len() as int) =~= cs@);
    string_of(&v)
}

// ---------------------------------------------------------------------------
// Removing directive spans from prose.
// ---------------------------------------------------------------------------

/// The text of `s` from `pos` on without `⟦…⟧` spans; an unterminated span
/// drops the rest.
pub open spec fn remove_spans_from(s: Seq<char>, pos: int) -> Seq<char>
    decreases s.len() - pos,
{
    if pos < 0 || pos > s.len() {
        Seq::empty()
    } else {
        match find_char_from(s, SHOW_OPEN, pos) {
            None => s.subrange(pos, s.len() as int),
            Some(o) => if pos <= o < s.len() {
                s.subrange(pos, o) + match find_char_from(s, SHOW_CLOSE, o) {
                    Some(c) => if o <= c < s.len() {
                        remove_spans_from(s, c + 1)
                    } else {
                        Seq::empty()
                    },
                    None => Seq::empty(),
                }
            } else {
                Seq::empty()
            },
        }
    }
}

/// `s` with any `⟦…⟧` directive spans removed and its whitespace collapsed;
/// `s` itself when it holds no `⟦`.
pub open spec fn strip_spec(s: Seq<char>) -> Seq<char> {
    if find_char(s, SHOW_OPEN) is None {
        s
    } else {
        collapse_ws(remove_spans_from(s, 0))
    }
}

fn remove_spans_exec(s: &[char]) -> (out: Vec<char>)
    ensures
        out@ == remove_spans_from(s@, 0),
{
    let mut out: Vec<char> = Vec::new();
    let mut pos: usize = 0;
    let n = s.len();
    assert(out@ + remove_spans_from(s@, 0) =~= remove_spans_from(s@, 0));
    while pos <= n
        invariant_except_break
            out@ + remove_spans_from(s@, pos as int) == remove_spans_from(s@, 0),
        invariant
            pos <= n == s@.len(),
        ensures
            out@ == remove_spans_from(s@, 0),
        decreases n + 1 - pos,
    {
        let ghost o0 = out@;
        match find_char_exec(s, SHOW_OPEN, pos) {
            None => {
                let rest = copy_range(s, pos, n);
                crate::text::extend_chars(&mut out, &rest);
                assert(out@ =~= o0 + remove_spans_from(s@, pos as int));
                break;
            },
            Some(o) => {
                proof {
                    crate::text::lemma_first_at(
                        n as int,
                        crate::text::is_char_at(s@, SHOW_OPEN),
                        pos as int,
                    );
                }
                let head = copy_range(s, pos, o);
                crate::text::extend_chars(&mut out, &head);
                match find_char_exec(s, SHOW_CLOSE, o) {
                    Some(c) => {
                        proof {
                            crate::text::lemma_first_at(
                                n as int,
                                crate::text::is_char_at(s@, SHOW_CLOSE),
                                o as int,
                            );
                            assert(o0 + remove_spans_from(s@, pos as int) =~= out@
                                + remove_spans_from(s@, c + 1));
                        }
                        pos = c + 1;
                    },
                    None => {
                        assert(out@ =~= o0 + remove_spans_from(s@, pos as int));
                        break;
                    },
                }
            },
        }
    }
    out
}

/// No character of `t` is `c`.
pub open spec fn lacks(t: Seq<char>, c: char) -> bool {
    forall|j: int| 0 <= j < t.len() ==> #[trigger] t[j] != c
}

/// Law: no `⟦` survives span removal.
pub proof fn lemma_remove_spans_no_open(s: Seq<char>, pos: int)
    ensures
        lacks(remove_spans_from(s, pos), SHOW_OPEN),
    decreases s.len() - pos,
{
    let r = remove_spans_from(s, pos);
    if 0 <= pos <= s.len() {
        let p = crate::text::is_char_at(s, SHOW_OPEN);
        lemma_first_at(s.len() as int, p, pos);
        match find_char_from(s, SHOW_OPEN, pos) {
            None => {
                assert forall|j: int| 0 <= j < r.len() implies #[trigger] r[j] != SHOW_OPEN by {
                    assert(r[j] == s[pos + j]);
                    assert(!p(pos + j));
                }
            },
            Some(o) => {
                if pos <= o < s.len() {
                    let head = s.subrange(pos, o);
                    let tail = match find_char_from(s, SHOW_CLOSE, o) {
                        Some(c) => if o <= c < s.len() {
                            remove_spans_from(s, c + 1)
                        } else {
                            Seq::empty()
                        },
                        None => Seq::empty(),
                    };
                    match find_char_from(s, SHOW_CLOSE, o) {
                        Some(c) => {
                            if o <= c < s.len() {
                                lemma_remove_spans_no_open(s, c + 1);
                            }
                        },
                        None => {},
                    }
                    assert(r =~= head + tail);
                    assert forall|j: int| 0 <= j < r.len() implies #[trigger] r[j] != SHOW_OPEN by {
                        if j < head.len() {
                            assert(r[j] == s[pos + j]);
                            assert(!p(pos + j));
                        } else {
                            assert(r[j] == tail[j - head.len()]);
                        }
                    }
                }
            },
        }
    }
}

proof fn lemma_find_lacks(t: Seq<char>, c: char)
    requires
        find_char(t, c) is None,
    ensures
        lacks(t, c),
{
    let p = crate::text::is_char_at(t, c);
    lemma_first_at(t.len() as int, p, 0);
    assert forall|j: int| 0 <= j < t.len() implies #[trigger] t[j] != c by {
        assert(!p(j));
    }
}

/// Law: stripped prose holds no `⟦`.
pub proof fn lemma_strip_no_open(s: Seq<char>)
    ensures
        lacks(strip_spec(s), SHOW_OPEN),
{
    if find_char(s, SHOW_OPEN) is None {
        lemma_find_lacks(s, SHOW_OPEN);
    } else {
        let r = remove_spans_from(s, 0);
        lemma_remove_spans_no_open(s, 0);
        lemma_collapse_state(r);
        let t = collapse_ws(r);
        assert forall|j: int| 0 <= j < t.len() implies #[trigger] t[j] != SHOW_OPEN by {
            assert(t[j] == ' ' || r.contains(t[j]));
            if t[j] != ' ' {
                let k = choose|k: int| 0 <= k < r.len() && r[k] == t[j];
                assert(r[k] != SHOW_OPEN);
            }
        }
    }
}

fn strip_vec(s: &[char]) -> (out: Vec<char>)
    ensures
        out@ == strip_spec(s@),
{
    match find_char_exec(s, SHOW_OPEN, 0) {
        None => {
            let v = copy_range(s, 0, s.len());
            assert(s@.subrange(0, s@.len() as int) =~= s@);
            v
        },
        Some(_) => {
            let r = remove_spans_exec(s);
            let c = collapse_ws_exec(&r, 0, r.len());
            assert(r@.subrange(0, r@.len() as int) =~= r@);
            c
        },
    }
}

// ---------------------------------------------------------------------------
// Sentence boundaries.
// ---------------------------------------------------------------------------

pub open spec fn is_sentence_end(c: char) -> bool {
    c == '.' || c == '!' || c == '?' || c == '\u{2026}'
}

/// A sentence ends just past `k`: sentence punctuation followed by
/// whitespace or the end of `text`, at least four UTF-8 bytes after `from`.
pub open spec fn is_cut(text: Seq<char>, from: int, k: int) -> bool {
    &&& from <= k < text.len()
    &&& is_sentence_end(text[k])
    &&& (k + 1 == text.len() || is_ws(text[k + 1]))
    &&& utf8_len(text.subrange(from, k + 1)) >= 4
}

pub open spec fn cut_fn(text: Seq<char>, from: int) -> spec_fn(int) -> bool {
    |k: int| is_cut(text, from, k)
}

/// End of the last complete sentence of `text` after `from` (the index
/// just past its punctuation), or `None` when no sentence has completed.
pub open spec fn sentence_cut(text: Seq<char>, from: int) -> Option<int> {
    match last_before(cut_fn(text, from), text.len() as int) {
        Some(k) => Some(k + 1),
        None => None,
    }
}

fn sentence_cut_exec(s: &[char], eff: usize, from: usize) -> (r: Option<usize>)
    requires
        from <= eff <= s@.len(),
    ensures
        match r {
            Some(c) => sentence_cut(s@.subrange(0, eff as int), from as int) == Some(c as int),
            None => sentence_cut(s@.subrange(0, eff as int), from as int) is None,
        },
{
    let ghost text = s@.subrange(0, eff as int);
    let ghost p = cut_fn(text, from as int);
    proof {
        assert forall|j: int| 0 <= j < from implies !#[trigger] p(j) by {}
        crate::text::lemma_last_before_none(p, from as int);
    }
    let mut cut: Option<usize> = None;
    let mut bytes: usize = 0;
    let mut k = from;
    while k < eff
        invariant
            from <= k <= eff <= s@.len(),
            text == s@.subrange(0, eff as int),
            p == cut_fn(text, from as int),
            bytes == (if utf8_len(text.subrange(from as int, k as int)) < 4 {
                utf8_len(text.subrange(from as int, k as int))
            } else {
                4
            }),
            match cut {
                Some(c) => last_before(p, k as int) == Some(c - 1),
                None => last_before(p, k as int) is None,
            },
        decreases eff - k,
    {
        let c = s[k];
        let cl = utf8_char_len_exec(c);
        proof {
            assert(text.subrange(from as int, k + 1).drop_last() =~= text.subrange(
                from as int,
                k as int,
            ));
            assert(text[k as int] == c);
        }
        bytes = if bytes + cl < 4 {
            bytes + cl
        } else {
            4
        };
        let is_end = c == '.' || c == '!' || c == '?' || c == '\u{2026}';
        let followed = k + 1 == eff || char_is_ws(s[k + 1]);
        proof {
            if k + 1 < eff {
                assert(text[k + 1] == s@[k + 1]);
            }
        }
        if is_end && followed && bytes >= 4 {
            cut = Some(k + 1);
        }
        k = k + 1;
    }
    cut
}

// ---------------------------------------------------------------------------
// The conjuring directive.
// ---------------------------------------------------------------------------

pub open spec fn show_word() -> Seq<char> {
    seq!['s', 'h', 'o', 'w']
}

pub open spec fn not_colon_space(t: Seq<char>) -> spec_fn(int) -> bool {
    |k: int| t[k] != ':' && t[k] != ' '
}

/// `t` without its leading `:` and space characters.
pub open spec fn trim_colons(t: Seq<char>) -> Seq<char> {
    match first_at(t.len() as int, not_colon_space(t), 0) {
        Some(k) => t.skip(k),
        None => Seq::empty(),
    }
}

pub open spec fn lower_seq(t: Seq<char>) -> Seq<char> {
    t.map_values(|c: char| ascii_lower(c))
}

/// The page number inside `⟦…⟧`: the text must begin with `show` (any
/// ASCII case), then `:`s and spaces, then a decimal number, blanks allowed
/// around it.
pub open spec fn show_number(inner: Seq<char>) -> Option<nat> {
    let lower = lower_seq(inner);
    if crate::text::starts_with(lower, show_word()) {
        parse_unsigned(trim(trim_colons(lower.skip(4))))
    } else {
        None
    }
}

/// The memory id a directive names: catalog number `n` is `ids[n - 1]`.
pub open spec fn show_target(inner: Seq<char>, ids: Seq<u64>) -> Option<u64> {
    match show_number(inner) {
        Some(n) => if 1 <= n <= ids.len() {
            Some(ids[n - 1])
        } else {
            None
        },
        None => None,
    }
}

fn show_target_exec(s: &[char], lo: usize, hi: usize, ids: &Vec<u64>) -> (r: Option<u64>)
    requires
        lo <= hi <= s@.len(),
    ensures
        r == show_target(s@.subrange(lo as int, hi as int), ids@),
{
    let ghost inner = s@.subrange(lo as int, hi as int);
    let mut lower: Vec<char> = Vec::new();
    let mut i = lo;
    while i < hi
        invariant
            lo <= i <= hi <= s@.len(),
            inner == s@.subrange(lo as int, hi as int),
            lower@ == lower_seq(inner.subrange(0, i - lo)),
        decreases hi - i,
    {
        lower.push(ascii_lower_exec(s[i]));
        i = i + 1;
        proof {
            assert(lower@ =~= lower_seq(inner.subrange(0, i - lo)));
        }
    }
    assert(inner.subrange(0, hi - lo) =~= inner);
    let n = lower.len();
    if n < 4 || lower[0] != 's' || lower[1] != 'h' || lower[2] != 'o' || lower[3] != 'w' {
        proof {
            if n >= 4 {
                assert(lower@.subrange(0, 4) != show_word()) by {
                    if lower@[0] != 's' {
                        assert(lower@.subrange(0, 4)[0] != show_word()[0]);
                    } else if lower@[1] != 'h' {
                        assert(lower@.subrange(0, 4)[1] != show_word()[1]);
                    } else if lower@[2] != 'o' {
                        assert(lower@.subrange(0, 4)[2] != show_word()[2]);
                    } else {
                        assert(lower@.subrange(0, 4)[3] != show_word()[3]);
                    }
                }
            }
        }
        return None;
    }
    assert(lower@.subrange(0, 4) =~= show_word());
    let ghost rest = lower@.skip(4);
    let mut j: usize = 4;
    while j < n && (lower[j] == ':' || lower[j] == ' ')
        invariant
            4 <= j <= n == lower@.len(),
            rest == lower@.skip(4),
            forall|t: int| 0 <= t < j - 4 ==> !#[trigger] not_colon_space(rest)(t),
        decreases n - j,
    {
        j = j + 1;
    }
    proof {
        let q = not_colon_space(rest);
        if j < n {
            assert(q(j - 4));
            lemma_first_at_is(rest.len() as int, q, 0, j - 4);
        } else {
            lemma_first_at_none(rest.len() as int, q, 0);
        }
        assert(trim_colons(rest) =~= lower@.subrange(j as int, n as int));
    }
    let (a, b) = trim_bounds(&lower, j, n);
    let v = parse_u64(&lower, a, b);
    proof {
        assert(usize::MAX <= u64::MAX);
        assert(lower@ == lower_seq(inner));
        assert(crate::text::starts_with(lower@, show_word()));
        assert(lower@.skip(4) == rest);
        assert(show_number(inner) == parse_unsigned(lower@.subrange(a as int, b as int)));
    }
    match v {
        Some(v) => {
            assert(show_number(inner) == Some(v as nat));
            if 1 <= v && v <= ids.len() as u64 {
                let idx = (v - 1) as usize;
                assert(idx == v - 1);
                let x = ids[idx];
                assert(show_target(inner, ids@) == Some(x));
                Some(x)
            } else {
                assert(show_target(inner, ids@) is None);
                None
            }
        },
        None => {
            assert(ids@.len() == ids.len());
            assert(show_target(inner, ids@) is None);
            None
        },
    }
}

// ---------------------------------------------------------------------------
// The stream parser.
// ---------------------------------------------------------------------------

/// What the parser remembers between calls.
pub struct ParserState {
    /// How much of the reply body has been handed out (characters).
    pub delivered: int,
    /// Where the `⁂` postscript begins, once seen.
    pub sentinel: Option<int>,
    /// Whether the reply has been classified as a directive or prose.
    pub route_checked: bool,
    /// Whether anything (ink or a conjuring) has been handed out.
    pub emitted_any: bool,
    /// `catalog_ids[i]` is the memory behind catalog number `i + 1`.
    pub catalog_ids: Seq<u64>,
    /// The running text of the last call (each call's text extends it).
    pub seen: Seq<char>,
}

/// Incremental parser over the model's streamed text: routes the
/// `⟦show:N⟧` directive, chunks prose into sentences, and splits off the
/// `⁂` transcription postscript. Fed the running full text, it emits each
/// event once.
pub struct StreamParser {
    delivered: usize,
    sentinel: Option<usize>,
    route_checked: bool,
    emitted_any: bool,
    catalog_ids: Vec<u64>,
    seen: Vec<char>,
}

impl View for StreamParser {
    type V = ParserState;

    closed spec fn view(&self) -> ParserState {
        ParserState {
            delivered: self.delivered as int,
            sentinel: match self.sentinel {
                Some(p) => Some(p as int),
                None => None,
            },
            route_checked: self.route_checked,
            emitted_any: self.emitted_any,
            catalog_ids: self.catalog_ids@,
            seen: self.seen@,
        }
    }
}

pub open spec fn msg_unfinished() -> Seq<char> {
    "unfinished conjuring directive"@
}

pub open spec fn msg_lost(inner: Seq<char>) -> Seq<char> {
    "the diary lost that page ("@ + inner + ")"@
}

pub open spec fn msg_empty() -> Seq<char> {
    "empty reply"@
}

/// Where the postscript begins: as remembered, else the first `⁂` of `full`.
pub open spec fn located(st: ParserState, full: Seq<char>) -> Option<int> {
    match st.sentinel {
        Some(p) => Some(p),
        None => find_char(full, SENTINEL),
    }
}

/// The end of the reply body.
pub open spec fn effective(sent: Option<int>, full: Seq<char>) -> int {
    match sent {
        Some(p) => p,
        None => full.len() as int,
    }
}

/// Whether `a` is a prefix of `b`.
pub open spec fn extends(b: Seq<char>, a: Seq<char>) -> bool {
    a.len() <= b.len() && b.subrange(0, a.len() as int) == a
}

/// `full` can be fed in state `st`: it extends the text of the previous
/// call (the parser is fed the running text of one reply), nothing handed
/// out lies past the body, and a remembered postscript lies inside the text.
pub open spec fn ready(st: ParserState, full: Seq<char>) -> bool {
    &&& extends(full, st.seen)
    &&& 0 <= st.delivered <= effective(located(st, full), full)
    &&& match st.sentinel {
        Some(p) => p < full.len(),
        None => true,
    }
}

/// Deliver the last complete sentence of the body, if a new one completed.
pub open spec fn prose_step(st: ParserState, full: Seq<char>, eff: int, out: Seq<OutV>) -> (
    ParserState,
    Seq<OutV>,
) {
    if st.delivered < eff {
        match sentence_cut(full.subrange(0, eff), st.delivered) {
            Some(cut) => {
                let chunk = strip_spec(clean_spec(full.subrange(st.delivered, cut)));
                if chunk.len() > 0 {
                    (
                        ParserState { delivered: cut, emitted_any: true, ..st },
                        out.push(Ok(EventV::Ink(chunk))),
                    )
                } else {
                    (ParserState { delivered: cut, ..st }, out)
                }
            },
            None => (st, out),
        }
    } else {
        (st, out)
    }
}

/// End of stream: the body's tail, the transcription, or "empty reply".
pub open spec fn flush_step(st: ParserState, full: Seq<char>, eff: int, out: Seq<OutV>) -> (
    ParserState,
    Seq<OutV>,
) {
    let (st1, out1) = if st.delivered < eff {
        let rest = strip_spec(clean_spec(trim(full.subrange(st.delivered, eff))));
        if rest.len() > 0 {
            (
                ParserState { delivered: eff, emitted_any: true, ..st },
                out.push(Ok(EventV::Ink(rest))),
            )
        } else {
            (ParserState { delivered: eff, ..st }, out)
        }
    } else {
        (st, out)
    };
    let out2 = match st1.sentinel {
        Some(p) => {
            let t = trim(full.subrange(p + 1, full.len() as int));
            if t.len() > 0 {
                out1.push(Ok(EventV::Transcript(t)))
            } else {
                out1
            }
        },
        None => out1,
    };
    let out3 = if !st1.emitted_any {
        out2.push(Err(msg_empty()))
    } else {
        out2
    };
    (st1, out3)
}

#[verifier::opaque]
pub open spec fn body_step(
    st: ParserState,
    full: Seq<char>,
    eff: int,
    done: bool,
    out: Seq<OutV>,
) -> (ParserState, Seq<OutV>) {
    let (st1, out1) = prose_step(st, full, eff, out);
    if done {
        flush_step(st1, full, eff, out1)
    } else {
        (st1, out1)
    }
}

/// One call of `advance`: the next state (which remembers `full`) and the
/// events handed out; see `advance_core`.
pub open spec fn advance_spec(st: ParserState, full: Seq<char>, done: bool) -> (
    ParserState,
    Seq<OutV>,
) {
    let (st2, out) = advance_core(st, full, done);
    (ParserState { seen: full, ..st2 }, out)
}

/// The positions and events of one call of `advance`.
///
/// The reply body is everything before the first `⁂`. Until the reply is
/// classified, a body that (after blanks) opens with `⟦` is a directive:
/// once its `⟧` has arrived it yields `Show` of the catalog entry it names
/// (or an error) and consumes the whole body; a body of blanks waits; any
/// other text is prose. Prose is delivered up to the last completed
/// sentence; at the end of the stream the rest of the body, the trimmed
/// transcription, and "empty reply" when nothing was ever handed out.
pub open spec fn advance_core(st: ParserState, full: Seq<char>, done: bool) -> (
    ParserState,
    Seq<OutV>,
) {
    let sent = located(st, full);
    let eff = effective(sent, full);
    let st1 = ParserState { sentinel: sent, ..st };
    if !st1.route_checked {
        let lead = trim_start(full.subrange(st1.delivered, eff));
        if lead.len() > 0 && lead[0] == SHOW_OPEN {
            match find_char(lead, SHOW_CLOSE) {
                None => (
                    st1,
                    if done {
                        seq![Err(msg_unfinished())]
                    } else {
                        Seq::empty()
                    },
                ),
                Some(close) => {
                    let inner = lead.subrange(1, close);
                    let first = match show_target(inner, st1.catalog_ids) {
                        Some(id) => Ok(EventV::Show(id)),
                        None => Err(msg_lost(inner)),
                    };
                    body_step(
                        ParserState { route_checked: true, emitted_any: true, delivered: eff, ..st1 },
                        full,
                        eff,
                        done,
                        seq![first],
                    )
                },
            }
        } else if lead.len() == 0 {
            if !done {
                (st1, Seq::empty())
            } else {
                body_step(ParserState { route_checked: true, ..st1 }, full, eff, done, Seq::empty())
            }
        } else {
            body_step(ParserState { route_checked: true, ..st1 }, full, eff, done, Seq::empty())
        }
    } else {
        body_step(st1, full, eff, done, Seq::empty())
    }
}

proof fn lemma_outs_push(v: Seq<Result<Event, String>>, x: Result<Event, String>)
    ensures
        outs_view(v.push(x)) == outs_view(v).push(out_view(x)),
{
    assert(outs_view(v.push(x)) =~= outs_view(v).push(out_view(x)));
}

fn is_prefix_exec(a: &Vec<char>, b: &Vec<char>) -> (r: bool)
    ensures
        r == extends(b@, a@),
{
    if a.len() > b.len() {
        return false;
    }
    let mut i: usize = 0;
    while i < a.len()
        invariant
            i <= a@.len() <= b@.len(),
            forall|j: int| 0 <= j < i ==> a@[j] == b@[j],
        decreases a@.len() - i,
    {
        if a[i] != b[i] {
            assert(b@.subrange(0, a@.len() as int)[i as int] != a@[i as int]);
            return false;
        }
        i = i + 1;
    }
    assert(b@.subrange(0, a@.len() as int) =~= a@);
    true
}

impl StreamParser {
    /// A parser for one reply; `catalog_ids[i]` is the memory id behind
    /// catalog number `i + 1`.
    pub fn new(catalog_ids: Vec<u64>) -> (p: Self)
        ensures
            p@ == (ParserState {
                delivered: 0,
                sentinel: None,
                route_checked: false,
                emitted_any: false,
                catalog_ids: catalog_ids@,
                seen: Seq::empty(),
            }),
    {
        StreamParser {
            delivered: 0,
            sentinel: None,
            route_checked: false,
            emitted_any: false,
            catalog_ids,
            seen: Vec::new(),
        }
    }

    /// Whether `full` may be fed now (see `ready`).
    pub fn accepts(&self, full: &str) -> (b: bool)
        ensures
            b == ready(self@, full@),
    {
        let cs = chars_of(full);
        if !is_prefix_exec(&self.seen, &cs) {
            return false;
        }
        match self.sentinel {
            Some(p) => p < cs.len() && self.delivered <= p,
            None => {
                let f = find_char_exec(&cs, SENTINEL, 0);
                match f {
                    Some(k) => self.delivered <= k,
                    None => self.delivered <= cs.len(),
                }
            },
        }
    }

    fn push_out(out: &mut Vec<Result<Event, String>>, x: Result<Event, String>)
        ensures
            outs_view(final(out)@) == outs_view(old(out)@).push(out_view(x)),
    {
        proof {
            lemma_outs_push(out@, x);
        }
        out.push(x);
    }

    /// Prose and, when `done`, the flush, over the body `cs[..eff]`.
    fn body(&mut self, cs: &Vec<char>, eff: usize, done: bool, out: &mut Vec<Result<Event, String>>)
        requires
            old(self).delivered <= eff <= cs@.len(),
            match old(self).sentinel {
                Some(p) => p == eff && p < cs@.len(),
                None => eff == cs@.len(),
            },
        ensures
            (final(self)@, outs_view(final(out)@)) == body_step(
                old(self)@,
                cs@,
                eff as int,
                done,
                outs_view(old(out)@),
            ),
            final(self).delivered <= eff,
            done ==> final(self).delivered == eff,
            final(self).sentinel == old(self).sentinel,
    {
        let ghost st0 = self@;
        let ghost o0 = outs_view(out@);
        reveal(body_step);
        if self.delivered < eff {
            match sentence_cut_exec(cs, eff, self.delivered) {
                Some(cut) => {
                    proof {
                        let text = cs@.subrange(0, eff as int);
                        crate::text::lemma_last_before(cut_fn(text, self.delivered as int), eff as int);
                    }
                    let cleaned = clean_range(cs, self.delivered, cut);
                    let chunk = strip_vec(&cleaned);
                    if chunk.len() > 0 {
                        self.emitted_any = true;
                        Self::push_out(out, Ok(Event::Ink(string_of(&chunk))));
                    }
                    self.delivered = cut;
                },
                None => {},
            }
        }
        let ghost st1 = self@;
        let ghost o1 = outs_view(out@);
        assert((st1, o1) == prose_step(st0, cs@, eff as int, o0));
        if done {
            if self.delivered < eff {
                let (a, b) = trim_bounds(cs, self.delivered, eff);
                let cleaned = clean_range(cs, a, b);
                let rest = strip_vec(&cleaned);
                if rest.len() > 0 {
                    self.emitted_any = true;
                    Self::push_out(out, Ok(Event::Ink(string_of(&rest))));
                }
                self.delivered = eff;
            }
            let n = cs.len();
            if let Some(p) = self.sentinel {
                assert(p < n);
                let (a, b) = trim_bounds(cs, p + 1, n);
                if a < b {
                    let t = copy_range(cs, a, b);
                    Self::push_out(out, Ok(Event::Transcript(string_of(&t))));
                }
            }
            if !self.emitted_any {
                Self::push_out(out, Err("empty reply".to_string()));
            }
        }
    }

    /// Feeds the full accumulated reply text so far; `done` marks the end
    /// of the stream and flushes the tail and the transcription.
    pub fn advance(&mut self, full: &str, done: bool) -> (out: Vec<Result<Event, String>>)
        requires
            ready(old(self)@, full@),
        ensures
            (final(self)@, outs_view(out@)) == advance_spec(old(self)@, full@, done),
    {
        let out = self.step(full, done);
        self.seen = chars_of(full);
        out
    }

    #[verifier::rlimit(30)]
    fn step(&mut self, full: &str, done: bool) -> (out: Vec<Result<Event, String>>)
        requires
            ready(old(self)@, full@),
        ensures
            (final(self)@, outs_view(out@)) == advance_core(old(self)@, full@, done),
    {
        let ghost st0 = self@;
        let cs = chars_of(full);
        let n = cs.len();
        let mut out: Vec<Result<Event, String>> = Vec::new();
        if self.sentinel.is_none() {
            self.sentinel = find_char_exec(&cs, SENTINEL, 0);
            proof {
                lemma_first_at(n as int, crate::text::is_char_at(cs@, SENTINEL), 0);
            }
        }
        let eff = match self.sentinel {
            Some(p) => p,
            None => n,
        };
        let ghost st1 = ParserState { sentinel: located(st0, full@), ..st0 };
        assert(self@ == st1);
        assert(eff == effective(located(st0, full@), full@));
        let ghost pre: (ParserState, Seq<OutV>) = (st1, Seq::empty());
        if !self.route_checked {
            let a = trim_start_bound(&cs, self.delivered, eff);
            let ghost lead = trim_start(full@.subrange(self.delivered as int, eff as int));
            assert(lead == cs@.subrange(a as int, eff as int));
            if a < eff && cs[a] == SHOW_OPEN {
                match find_char_range(&cs, SHOW_CLOSE, a, eff) {
                    None => {
                        if done {
                            Self::push_out(&mut out, Err("unfinished conjuring directive".to_string()));
                        }
                        assert(outs_view(out@) =~= (if done {
                            seq![Err(msg_unfinished())]
                        } else {
                            Seq::<OutV>::empty()
                        }));
                        return out;
                    },
                    Some(k) => {
                        let ghost inner = lead.subrange(1, k - a);
                        proof {
                            lemma_first_at(lead.len() as int, crate::text::is_char_at(lead, SHOW_CLOSE), 0);
                            assert(lead[0] == SHOW_OPEN);
                            assert(k - a >= 1);
                            assert(inner =~= cs@.subrange(a + 1, k as int));
                        }
                        let target = show_target_exec(&cs, a + 1, k, &self.catalog_ids);
                        let first = match target {
                            Some(id) => Ok(Event::Show(id)),
                            None => {
                                let mut m = chars_of("the diary lost that page (");
                                let inner_v = copy_range(&cs, a + 1, k);
                                crate::text::extend_chars(&mut m, &inner_v);
                                let close = chars_of(")");
                                crate::text::extend_chars(&mut m, &close);
                                assert(m@ == msg_lost(inner));
                                Err(string_of(&m))
                            },
                        };
                        let ghost first_v = match show_target(inner, st1.catalog_ids) {
                            Some(id) => Ok(EventV::Show(id)),
                            None => Err(msg_lost(inner)),
                        };
                        assert(out_view(first) == first_v);
                        self.route_checked = true;
                        self.emitted_any = true;
                        self.delivered = eff;
                        Self::push_out(&mut out, first);
                        proof {
                            pre = (
                                ParserState { route_checked: true, emitted_any: true, delivered: eff as int, ..st1 },
                                seq![first_v],
                            );
                            assert(outs_view(out@) =~= pre.1);
                            assert(self@ == pre.0);
                        }
                    },
                }
            } else if a == eff {
                if !done {
                    assert(outs_view(out@) =~= Seq::<OutV>::empty());
                    return out;
                }
                self.route_checked = true;
                proof {
                    pre = (ParserState { route_checked: true, ..st1 }, Seq::empty());
                    assert(outs_view(out@) =~= pre.1);
                }
            } else {
                self.route_checked = true;
                proof {
                    pre = (ParserState { route_checked: true, ..st1 }, Seq::empty());
                    assert(outs_view(out@) =~= pre.1);
                }
            }
        } else {
            assert(outs_view(out@) =~= pre.1);
        }
        assert(advance_core(st0, full@, done) == body_step(pre.0, full@, eff as int, done, pre.1));
        self.body(&cs, eff, done, &mut out);
        out
    }
}

// ---------------------------------------------------------------------------
// Laws of the stream parser.
// ---------------------------------------------------------------------------

/// Every character of `t` occurs in `s`.
pub open spec fn chars_within(t: Seq<char>, s: Seq<char>) -> bool {
    forall|i: int| 0 <= i < t.len() ==> s.contains(#[trigger] t[i])
}

proof fn lemma_within_subrange(s: Seq<char>, a: int, b: int)
    requires
        0 <= a <= b <= s.len(),
    ensures
        chars_within(s.subrange(a, b), s),
{
    let t = s.subrange(a, b);
    assert forall|i: int| 0 <= i < t.len() implies s.contains(#[trigger] t[i]) by {
        assert(s[a + i] == t[i]);
    }
}

proof fn lemma_within_trans(t: Seq<char>, u: Seq<char>, s: Seq<char>)
    requires
        chars_within(t, u),
        chars_within(u, s),
    ensures
        chars_within(t, s),
{
    assert forall|i: int| 0 <= i < t.len() implies s.contains(#[trigger] t[i]) by {
        assert(u.contains(t[i]));
        let k = choose|k: int| 0 <= k < u.len() && u[k] == t[i];
        assert(s.contains(u[k]));
    }
}

proof fn lemma_trim_within(s: Seq<char>)
    ensures
        chars_within(trim(s), s),
{
    let p = crate::text::non_ws_at(s);
    lemma_first_at(s.len() as int, p, 0);
    let ts = trim_start(s);
    match first_at(s.len() as int, p, 0) {
        Some(k) => lemma_within_subrange(s, k, s.len() as int),
        None => {},
    }
    let q = crate::text::non_ws_at(ts);
    crate::text::lemma_last_before(q, ts.len() as int);
    match last_before(q, ts.len() as int) {
        Some(k) => lemma_within_subrange(ts, 0, k + 1),
        None => {},
    }
    lemma_within_trans(trim(s), ts, s);
}

proof fn lemma_clean_within(s: Seq<char>)
    ensures
        chars_within(clean_spec(s), s),
{
    lemma_trim_within(s);
    let t = trim(s);
    let t1 = if t.len() > 0 && t[0] == '"' {
        t.drop_first()
    } else {
        t
    };
    lemma_within_subrange(t, if t.len() > 0 && t[0] == '"' { 1 } else { 0 }, t.len() as int);
    assert(t1 == t.subrange(if t.len() > 0 && t[0] == '"' { 1 } else { 0 }, t.len() as int));
    lemma_within_subrange(t1, 0, if t1.len() > 0 && t1.last() == '"' { t1.len() - 1 } else { t1.len() as int });
    assert(clean_spec(s) == t1.subrange(0, if t1.len() > 0 && t1.last() == '"' { t1.len() - 1 } else { t1.len() as int }));
    lemma_within_trans(t1, t, s);
    lemma_within_trans(clean_spec(s), t1, s);
}

proof fn lemma_remove_spans_within(s: Seq<char>, pos: int)
    ensures
        chars_within(remove_spans_from(s, pos), s),
    decreases s.len() - pos,
{
    let r = remove_spans_from(s, pos);
    if 0 <= pos <= s.len() {
        match find_char_from(s, SHOW_OPEN, pos) {
            None => lemma_within_subrange(s, pos, s.len() as int),
            Some(o) => {
                if pos <= o < s.len() {
                    let head = s.subrange(pos, o);
                    lemma_within_subrange(s, pos, o);
                    let tail = match find_char_from(s, SHOW_CLOSE, o) {
                        Some(c) => if o <= c < s.len() {
                            remove_spans_from(s, c + 1)
                        } else {
                            Seq::empty()
                        },
                        None => Seq::empty(),
                    };
                    match find_char_from(s, SHOW_CLOSE, o) {
                        Some(c) => {
                            if o <= c < s.len() {
                                lemma_remove_spans_within(s, c + 1);
                            }
                        },
                        None => {},
                    }
                    assert(r =~= head + tail);
                    assert forall|i: int| 0 <= i < r.len() implies s.contains(#[trigger] r[i]) by {
                        if i < head.len() {
                            assert(r[i] == head[i]);
                        } else {
                            assert(r[i] == tail[i - head.len()]);
                        }
                    }
                }
            },
        }
    }
}

/// Whether every character of `t` is a space or occurs in `s`.
pub open spec fn spaced_within(t: Seq<char>, s: Seq<char>) -> bool {
    forall|i: int| 0 <= i < t.len() ==> #[trigger] t[i] == ' ' || s.contains(t[i])
}

/// Stripping keeps nothing but characters of the input, and spaces.
proof fn lemma_strip_within(x: Seq<char>)
    ensures
        spaced_within(strip_spec(x), x),
{
    if find_char(x, SHOW_OPEN) is None {
        assert forall|i: int| 0 <= i < x.len() implies #[trigger] x[i] == ' ' || x.contains(x[i]) by {}
    } else {
        let r = remove_spans_from(x, 0);
        lemma_remove_spans_within(x, 0);
        lemma_collapse_state(r);
        let t = collapse_ws(r);
        assert forall|i: int| 0 <= i < t.len() implies #[trigger] t[i] == ' ' || x.contains(t[i]) by {
            if t[i] != ' ' {
                assert(r.contains(t[i]));
                let k = choose|k: int| 0 <= k < r.len() && r[k] == t[i];
                assert(x.contains(r[k]));
            }
        }
    }
}

/// What one event may be: ink is never empty, never shows `⟦`, and is made
/// of the reply body's characters (and spaces); a conjuring names a
/// catalogued memory; the transcription comes only at the end of the stream.
pub open spec fn event_ok(e: OutV, ids: Seq<u64>, body: Seq<char>, done: bool) -> bool {
    match e {
        Ok(EventV::Ink(t)) => t.len() > 0 && lacks(t, SHOW_OPEN) && spaced_within(t, body),
        Ok(EventV::Show(id)) => ids.contains(id),
        Ok(EventV::Transcript(t)) => done && crate::text::trimmed_nonempty(t) && trim(t) == t,
        Err(_) => true,
    }
}

pub open spec fn events_ok(out: Seq<OutV>, ids: Seq<u64>, body: Seq<char>, done: bool) -> bool {
    forall|i: int| 0 <= i < out.len() ==> event_ok(#[trigger] out[i], ids, body, done)
}

proof fn lemma_ink_ok(full: Seq<char>, a: int, b: int, eff: int, x: Seq<char>, ids: Seq<u64>, done: bool)
    requires
        0 <= a <= b <= eff <= full.len(),
        chars_within(x, full.subrange(a, b)),
        strip_spec(clean_spec(x)).len() > 0,
    ensures
        event_ok(Ok(EventV::Ink(strip_spec(clean_spec(x)))), ids, full.subrange(0, eff), done),
{
    let body = full.subrange(0, eff);
    let t = strip_spec(clean_spec(x));
    lemma_strip_no_open(clean_spec(x));
    lemma_strip_within(clean_spec(x));
    lemma_clean_within(x);
    assert(full.subrange(a, b) =~= body.subrange(a, b));
    lemma_within_subrange(body, a, b);
    lemma_within_trans(x, full.subrange(a, b), body);
    lemma_within_trans(clean_spec(x), x, body);
    assert forall|i: int| 0 <= i < t.len() implies #[trigger] t[i] == ' ' || body.contains(t[i]) by {
        if t[i] != ' ' {
            assert(clean_spec(x).contains(t[i]));
            let k = choose|k: int| 0 <= k < clean_spec(x).len() && clean_spec(x)[k] == t[i];
            assert(body.contains(clean_spec(x)[k]));
        }
    }
}

proof fn lemma_push_ok(out: Seq<OutV>, e: OutV, ids: Seq<u64>, body: Seq<char>, done: bool)
    requires
        events_ok(out, ids, body, done),
        event_ok(e, ids, body, done),
    ensures
        events_ok(out.push(e), ids, body, done),
{
    assert forall|i: int| 0 <= i < out.push(e).len() implies event_ok(
        #[trigger] out.push(e)[i],
        ids,
        body,
        done,
    ) by {
        if i < out.len() {
            assert(out.push(e)[i] == out[i]);
        }
    }
}

proof fn lemma_body_step_ok(st: ParserState, full: Seq<char>, eff: int, done: bool, out: Seq<OutV>)
    requires
        0 <= st.delivered <= eff <= full.len(),
        st.sentinel matches Some(p) ==> p == eff && p < full.len(),
        events_ok(out, st.catalog_ids, full.subrange(0, eff), done),
    ensures
        ({
            let (st2, out2) = body_step(st, full, eff, done, out);
            &&& events_ok(out2, st.catalog_ids, full.subrange(0, eff), done)
            &&& st2.catalog_ids == st.catalog_ids
            &&& st2.sentinel == st.sentinel
            &&& st2.route_checked == st.route_checked
            &&& st.delivered <= st2.delivered <= eff
            &&& done ==> st2.delivered == eff
        }),
{
    reveal(body_step);
    let body = full.subrange(0, eff);
    let ids = st.catalog_ids;
    let (st1, out1) = prose_step(st, full, eff, out);
    if st.delivered < eff {
        match sentence_cut(full.subrange(0, eff), st.delivered) {
            Some(cut) => {
                crate::text::lemma_last_before(cut_fn(body, st.delivered), eff);
                let x = full.subrange(st.delivered, cut);
                lemma_within_subrange(full.subrange(st.delivered, cut), 0, x.len() as int);
                if strip_spec(clean_spec(x)).len() > 0 {
                    lemma_ink_ok(full, st.delivered, cut, eff, x, ids, done);
                    lemma_push_ok(out, Ok(EventV::Ink(strip_spec(clean_spec(x)))), ids, body, done);
                }
            },
            None => {},
        }
    }
    if done {
        let (st_b, out_b) = if st1.delivered < eff {
            let rest = strip_spec(clean_spec(trim(full.subrange(st1.delivered, eff))));
            if rest.len() > 0 {
                (
                    ParserState { delivered: eff, emitted_any: true, ..st1 },
                    out1.push(Ok(EventV::Ink(rest))),
                )
            } else {
                (ParserState { delivered: eff, ..st1 }, out1)
            }
        } else {
            (st1, out1)
        };
        if st1.delivered < eff {
            let y = full.subrange(st1.delivered, eff);
            let x = trim(y);
            lemma_trim_within(y);
            if strip_spec(clean_spec(x)).len() > 0 {
                lemma_ink_ok(full, st1.delivered, eff, eff, x, ids, done);
                lemma_push_ok(out1, Ok(EventV::Ink(strip_spec(clean_spec(x)))), ids, body, done);
            }
        }
        let out_c = match st_b.sentinel {
            Some(p) => {
                let t = trim(full.subrange(p + 1, full.len() as int));
                if t.len() > 0 {
                    out_b.push(Ok(EventV::Transcript(t)))
                } else {
                    out_b
                }
            },
            None => out_b,
        };
        match st_b.sentinel {
            Some(p) => {
                let t = trim(full.subrange(p + 1, full.len() as int));
                if t.len() > 0 {
                    crate::text::lemma_trim_edges(full.subrange(p + 1, full.len() as int));
                    crate::text::lemma_trimmed_fixed(t);
                    lemma_push_ok(out_b, Ok(EventV::Transcript(t)), ids, body, done);
                }
            },
            None => {},
        }
        if !st_b.emitted_any {
            lemma_push_ok(out_c, Err(msg_empty()), ids, body, done);
        }
    }
}

proof fn lemma_first_ok(inner: Seq<char>, ids: Seq<u64>, body: Seq<char>, done: bool)
    ensures
        events_ok(
            seq![
                match show_target(inner, ids) {
                    Some(id) => Ok(EventV::Show(id)),
                    None => Err(msg_lost(inner)),
                },
            ],
            ids,
            body,
            done,
        ),
{
    match show_target(inner, ids) {
        Some(id) => {
            let n = show_number(inner).unwrap();
            assert(ids[n - 1] == id);
        },
        None => {},
    }
}

/// Law: whatever `advance` hands out is well-formed: ink is non-empty,
/// free of `⟦`, and drawn from the reply body before `⁂` (plus spaces); a
/// conjuring names a memory of the catalog; the transcription only comes
/// with `done`, and is non-empty and trimmed.
pub proof fn lemma_advance_events_ok(st: ParserState, full: Seq<char>, done: bool)
    requires
        ready(st, full),
    ensures
        events_ok(
            advance_spec(st, full, done).1,
            st.catalog_ids,
            full.subrange(0, effective(located(st, full), full)),
            done,
        ),
{
    let sent = located(st, full);
    let eff = effective(sent, full);
    let body = full.subrange(0, eff);
    let ids = st.catalog_ids;
    if st.sentinel is None {
        lemma_first_at(full.len() as int, crate::text::is_char_at(full, SENTINEL), 0);
    }
    let st1 = ParserState { sentinel: sent, ..st };
    assert(events_ok(Seq::<OutV>::empty(), ids, body, done));
    if !st1.route_checked {
        let lead = trim_start(full.subrange(st1.delivered, eff));
        if lead.len() > 0 && lead[0] == SHOW_OPEN {
            match find_char(lead, SHOW_CLOSE) {
                None => {
                    assert(events_ok(seq![Err(msg_unfinished())], ids, body, done));
                },
                Some(close) => {
                    let inner = lead.subrange(1, close);
                    let first = match show_target(inner, ids) {
                        Some(id) => Ok(EventV::Show(id)),
                        None => Err(msg_lost(inner)),
                    };
                    lemma_first_ok(inner, ids, body, done);
                    lemma_body_step_ok(
                        ParserState { route_checked: true, emitted_any: true, delivered: eff, ..st1 },
                        full,
                        eff,
                        done,
                        seq![first],
                    );
                },
            }
        } else if lead.len() == 0 {
            if done {
                lemma_body_step_ok(ParserState { route_checked: true, ..st1 }, full, eff, done, Seq::empty());
            }
        } else {
            lemma_body_step_ok(ParserState { route_checked: true, ..st1 }, full, eff, done, Seq::empty());
        }
    } else {
        lemma_body_step_ok(st1, full, eff, done, Seq::empty());
    }
}

/// Law: the running-text protocol closes. After any call, the parser
/// accepts the same text and every extension of it; and once the stream
/// is done with the reply classified, the whole body has been handed out.
pub proof fn lemma_advance_ready(st: ParserState, full: Seq<char>, done: bool, more: Seq<char>)
    requires
        ready(st, full),
    ensures
        ready(advance_spec(st, full, done).0, full + more),
        done && advance_spec(st, full, done).0.route_checked ==> advance_spec(st, full, done).0.delivered
            == effective(located(st, full), full),
        advance_spec(st, full, done).0.catalog_ids == st.catalog_ids,
{
    let sent = located(st, full);
    let eff = effective(sent, full);
    let st1 = ParserState { sentinel: sent, ..st };
    let ext = full + more;
    if st.sentinel is None {
        lemma_first_at(full.len() as int, crate::text::is_char_at(full, SENTINEL), 0);
    }
    assert(events_ok(Seq::<OutV>::empty(), st.catalog_ids, full.subrange(0, eff), done));
    if !st1.route_checked {
        let lead = trim_start(full.subrange(st1.delivered, eff));
        if lead.len() > 0 && lead[0] == SHOW_OPEN {
            match find_char(lead, SHOW_CLOSE) {
                None => {},
                Some(close) => {
                    let inner = lead.subrange(1, close);
                    let first = match show_target(inner, st1.catalog_ids) {
                        Some(id) => Ok(EventV::Show(id)),
                        None => Err(msg_lost(inner)),
                    };
                    lemma_first_ok(inner, st.catalog_ids, full.subrange(0, eff), done);
                    lemma_body_step_ok(
                        ParserState { route_checked: true, emitted_any: true, delivered: eff, ..st1 },
                        full,
                        eff,
                        done,
                        seq![first],
                    );
                },
            }
        } else if lead.len() == 0 {
            if done {
                lemma_body_step_ok(ParserState { route_checked: true, ..st1 }, full, eff, done, Seq::empty());
            }
        } else {
            lemma_body_step_ok(ParserState { route_checked: true, ..st1 }, full, eff, done, Seq::empty());
        }
    } else {
        lemma_body_step_ok(st1, full, eff, done, Seq::empty());
    }
    let st2 = advance_spec(st, full, done).0;
    assert(ext.subrange(0, full.len() as int) =~= full);
    assert(st2.sentinel == sent);
    assert(st2.delivered <= eff);
    match sent {
        Some(p) => {
            assert(located(st2, ext) == Some(p));
        },
        None => {
            lemma_find_lacks(full, SENTINEL);
            let q = crate::text::is_char_at(ext, SENTINEL);
            lemma_first_at(ext.len() as int, q, 0);
            match find_char(ext, SENTINEL) {
                Some(k) => {
                    if k < full.len() {
                        assert(ext[k] == full[k]);
                    }
                },
                None => {},
            }
        },
    }
}

/// Position `d` of `full` is just past a sentence: sentence punctuation
/// before it, and whitespace or the end of the body `full[..eff]` after.
pub open spec fn ends_sentence(full: Seq<char>, d: int, eff: int) -> bool {
    &&& 0 < d <= eff
    &&& is_sentence_end(full[d - 1])
    &&& d == eff || is_ws(full[d])
}

/// No conjuring among `out[from..]`.
pub open spec fn no_show_after(out: Seq<OutV>, from: int) -> bool {
    forall|i: int| from <= i < out.len() ==> !(#[trigger] out[i] matches Ok(EventV::Show(_)))
}

proof fn lemma_body_step_shape(st: ParserState, full: Seq<char>, eff: int, done: bool, out: Seq<OutV>)
    requires
        0 <= st.delivered <= eff <= full.len(),
    ensures
        ({
            let (st2, out2) = body_step(st, full, eff, done, out);
            &&& out2.len() >= out.len()
            &&& out2.subrange(0, out.len() as int) == out
            &&& no_show_after(out2, out.len() as int)
            &&& st.emitted_any ==> st2.emitted_any
            &&& st2.delivered >= st.delivered
            &&& st2.route_checked == st.route_checked
            &&& st2.sentinel == st.sentinel
            &&& st2.catalog_ids == st.catalog_ids
            &&& !done && st2.delivered > st.delivered ==> ends_sentence(full, st2.delivered, eff)
        }),
{
    reveal(body_step);
    let n = out.len() as int;
    let (st1, out1) = prose_step(st, full, eff, out);
    if st.delivered < eff {
        match sentence_cut(full.subrange(0, eff), st.delivered) {
            Some(cut) => {
                crate::text::lemma_last_before(cut_fn(full.subrange(0, eff), st.delivered), eff);
            },
            None => {},
        }
    }
    assert(st.delivered <= st1.delivered <= eff);
    assert(st.emitted_any ==> st1.emitted_any);
    assert(out1.len() >= n);
    assert(out1.subrange(0, n) =~= out);
    assert(no_show_after(out1, n));
    if done {
        let (st2, out2) = flush_step(st1, full, eff, out1);
        assert(st2.delivered >= st1.delivered);
        assert(st1.emitted_any ==> st2.emitted_any);
        assert(out2.len() >= out1.len());
        assert forall|i: int| 0 <= i < n implies out2[i] == out[i] by {
            assert(out1[i] == out[i]);
        }
        assert(out2.subrange(0, n) =~= out);
        assert(no_show_after(out2, n));
    }
}

/// No ink and no conjuring among `out`.
pub open spec fn quiet(out: Seq<OutV>) -> bool {
    forall|i: int|
        0 <= i < out.len() ==> !(#[trigger] out[i] matches Ok(EventV::Ink(_))) && !(out[i] matches Ok(
            EventV::Show(_),
        ))
}

/// Law: each part of the reply is handed out once, sentence by sentence.
/// Across calls the delivered position never moves back, the reply is
/// classified once and for all, and a conjuring can only come from the
/// call that classifies the reply, so at most one per stream; while the
/// stream runs, prose is handed out up to the end of a sentence.
pub proof fn lemma_advance_monotone(st: ParserState, full: Seq<char>, done: bool)
    requires
        ready(st, full),
    ensures
        advance_spec(st, full, done).0.delivered >= st.delivered,
        st.route_checked ==> advance_spec(st, full, done).0.route_checked,
        st.emitted_any ==> advance_spec(st, full, done).0.emitted_any,
        st.sentinel is Some ==> advance_spec(st, full, done).0.sentinel == st.sentinel,
        st.route_checked ==> no_show_after(advance_spec(st, full, done).1, 0),
        no_show_after(advance_spec(st, full, done).1, 1),
        !advance_spec(st, full, done).0.route_checked ==> quiet(advance_spec(st, full, done).1),
        !done && st.route_checked && advance_spec(st, full, done).0.delivered > st.delivered
            ==> ends_sentence(
            full,
            advance_spec(st, full, done).0.delivered,
            effective(located(st, full), full),
        ),
{
    let sent = located(st, full);
    let eff = effective(sent, full);
    let st1 = ParserState { sentinel: sent, ..st };
    if st.sentinel is None {
        lemma_first_at(full.len() as int, crate::text::is_char_at(full, SENTINEL), 0);
    }
    assert(eff <= full.len());
    if !st1.route_checked {
        let lead = trim_start(full.subrange(st1.delivered, eff));
        if lead.len() > 0 && lead[0] == SHOW_OPEN {
            match find_char(lead, SHOW_CLOSE) {
                None => {},
                Some(close) => {
                    let inner = lead.subrange(1, close);
                    let first = match show_target(inner, st1.catalog_ids) {
                        Some(id) => Ok(EventV::Show(id)),
                        None => Err(msg_lost(inner)),
                    };
                    lemma_body_step_shape(
                        ParserState { route_checked: true, emitted_any: true, delivered: eff, ..st1 },
                        full,
                        eff,
                        done,
                        seq![first],
                    );
                },
            }
        } else if lead.len() == 0 {
            if done {
                lemma_body_step_shape(ParserState { route_checked: true, ..st1 }, full, eff, done, Seq::empty());
            }
        } else {
            lemma_body_step_shape(ParserState { route_checked: true, ..st1 }, full, eff, done, Seq::empty());
        }
    } else {
        lemma_body_step_shape(st1, full, eff, done, Seq::empty());
    }
}

/// Removes any `⟦…⟧` directive spans from inked prose (collapsing the
/// whitespace left behind), so a misbehaving model never gets `⟦…⟧` glyphs
/// inked in Tom's hand.
pub fn strip_directives(s: &str) -> (r: String)
    ensures
        r@ == strip_spec(s@),
        lacks(r@, SHOW_OPEN),
{
    let cs = chars_of(s);
    let v = strip_vec(&cs);
    proof {
        lemma_strip_no_open(s@);
    }
    string_of(&v)
}


// ---------------------------------------------------------------------------
// Laws over a whole stream.
// ---------------------------------------------------------------------------

/// The state and every event after feeding `texts` in order, the last
/// with `done`.
pub open spec fn run_spec(st: ParserState, texts: Seq<Seq<char>>, done: bool) -> (
    ParserState,
    Seq<OutV>,
)
    decreases texts.len(),
{
    if texts.len() == 0 {
        (st, Seq::empty())
    } else {
        let (s1, o1) = run_spec(st, texts.drop_last(), false);
        let (s2, o2) = advance_spec(s1, texts.last(), done);
        (s2, o1 + o2)
    }
}

/// Each text extends the one before: the running text of one reply.
pub open spec fn growing(texts: Seq<Seq<char>>) -> bool {
    forall|i: int| 0 < i < texts.len() ==> extends(#[trigger] texts[i], texts[i - 1])
}

proof fn lemma_extends_trans(a: Seq<char>, b: Seq<char>, c: Seq<char>)
    requires
        extends(b, a),
        extends(c, b),
    ensures
        extends(c, a),
{
    assert(c.subrange(0, a.len() as int) =~= b.subrange(0, a.len() as int));
}

/// Feeding a growing run keeps the parser ready for its texts.
pub proof fn lemma_run_ready(st: ParserState, texts: Seq<Seq<char>>, done: bool)
    requires
        texts.len() > 0,
        growing(texts),
        ready(st, texts[0]),
    ensures
        texts.len() > 1 ==> ready(run_spec(st, texts.drop_last(), false).0, texts.last()),
        forall|more: Seq<char>| ready(run_spec(st, texts, done).0, texts.last() + more),
    decreases texts.len(),
{
    if texts.len() == 1 {
        assert(texts.drop_last() =~= Seq::<Seq<char>>::empty());
        assert(run_spec(st, texts.drop_last(), false).0 == st);
        assert(run_spec(st, texts, done).0 == advance_spec(st, texts[0], done).0);
        assert forall|more: Seq<char>| ready(run_spec(st, texts, done).0, texts.last() + more) by {
            lemma_advance_ready(st, texts[0], done, more);
        }
    } else {
        let init = texts.drop_last();
        assert(growing(init));
        lemma_run_ready(st, init, false);
        let s1 = run_spec(st, init, false).0;
        let prev = init.last();
        let t = texts.last();
        assert(extends(t, prev));
        assert(prev + t.skip(prev.len() as int) =~= t);
        assert(ready(s1, prev + t.skip(prev.len() as int)));
        assert forall|more: Seq<char>| ready(run_spec(st, texts, done).0, texts.last() + more) by {
            lemma_advance_ready(s1, t, done, more);
        }
    }
}

// ---------------------------------------------------------------------------
// Law: the ink covers the reply body once.
// ---------------------------------------------------------------------------

/// `s` without its whitespace.
pub open spec fn nows(s: Seq<char>) -> Seq<char>
    decreases s.len(),
{
    if s.len() == 0 {
        Seq::empty()
    } else {
        nows(s.drop_last()) + if is_ws(s.last()) {
            Seq::<char>::empty()
        } else {
            seq![s.last()]
        }
    }
}

/// The ink of `out`, one piece after the other.
pub open spec fn ink_text(out: Seq<OutV>) -> Seq<char>
    decreases out.len(),
{
    if out.len() == 0 {
        Seq::empty()
    } else {
        ink_text(out.drop_last()) + match out.last() {
            Ok(EventV::Ink(t)) => t,
            _ => Seq::<char>::empty(),
        }
    }
}

proof fn lemma_nows_concat(a: Seq<char>, b: Seq<char>)
    ensures
        nows(a + b) == nows(a) + nows(b),
    decreases b.len(),
{
    if b.len() == 0 {
        assert(a + b =~= a);
        assert(nows(a) + nows(b) =~= nows(a));
    } else {
        lemma_nows_concat(a, b.drop_last());
        assert((a + b).drop_last() =~= a + b.drop_last());
        assert((a + b).last() == b.last());
        assert(nows(a + b) =~= nows(a) + nows(b));
    }
}

proof fn lemma_nows_blank(a: Seq<char>)
    requires
        forall|i: int| 0 <= i < a.len() ==> is_ws(#[trigger] a[i]),
    ensures
        nows(a) == Seq::<char>::empty(),
    decreases a.len(),
{
    if a.len() > 0 {
        lemma_nows_blank(a.drop_last());
        assert(is_ws(a[a.len() - 1]));
        assert(nows(a) =~= Seq::<char>::empty());
    }
}

proof fn lemma_nows_trim(x: Seq<char>)
    ensures
        nows(trim(x)) == nows(x),
{
    let p = crate::text::non_ws_at(x);
    lemma_first_at(x.len() as int, p, 0);
    let u = trim_start(x);
    match first_at(x.len() as int, p, 0) {
        Some(k) => {
            assert(x =~= x.subrange(0, k) + u);
            lemma_nows_concat(x.subrange(0, k), u);
            assert forall|i: int| 0 <= i < k implies is_ws(#[trigger] x.subrange(0, k)[i]) by {
                assert(!p(i));
            }
            lemma_nows_blank(x.subrange(0, k));
            assert(nows(x) =~= nows(u));
        },
        None => {
            assert forall|i: int| 0 <= i < x.len() implies is_ws(#[trigger] x[i]) by {
                assert(!p(i));
            }
            lemma_nows_blank(x);
            assert(u =~= Seq::<char>::empty());
            assert(nows(u) =~= Seq::<char>::empty());
        },
    }
    let q = crate::text::non_ws_at(u);
    crate::text::lemma_last_before(q, u.len() as int);
    match last_before(q, u.len() as int) {
        Some(m) => {
            let v = u.subrange(0, m + 1);
            let w = u.subrange(m + 1, u.len() as int);
            assert(u =~= v + w);
            lemma_nows_concat(v, w);
            assert forall|i: int| 0 <= i < w.len() implies is_ws(#[trigger] w[i]) by {
                assert(!q(m + 1 + i));
            }
            lemma_nows_blank(w);
            assert(nows(u) =~= nows(v));
        },
        None => {
            assert forall|i: int| 0 <= i < u.len() implies is_ws(#[trigger] u[i]) by {
                assert(!q(i));
            }
            lemma_nows_blank(u);
            assert(trim(x) =~= Seq::<char>::empty());
            assert(nows(trim(x)) =~= Seq::<char>::empty());
        },
    }
}

proof fn lemma_lacks_sub(t: Seq<char>, s: Seq<char>, c: char)
    requires
        chars_within(t, s),
        lacks(s, c),
    ensures
        lacks(t, c),
{
    assert forall|j: int| 0 <= j < t.len() implies #[trigger] t[j] != c by {
        assert(s.contains(t[j]));
        let k = choose|k: int| 0 <= k < s.len() && s[k] == t[j];
        assert(s[k] != c);
    }
}

/// A piece of a body with no `"` and no `⟦` is inked as itself, but for
/// the whitespace around it.
proof fn lemma_piece(x: Seq<char>)
    requires
        lacks(x, '"'),
        lacks(x, SHOW_OPEN),
    ensures
        nows(strip_spec(clean_spec(x))) == nows(x),
        nows(strip_spec(clean_spec(trim(x)))) == nows(x),
{
    lemma_trim_within(x);
    let t = trim(x);
    lemma_lacks_sub(t, x, '"');
    lemma_lacks_sub(t, x, SHOW_OPEN);
    if t.len() > 0 {
        assert(t[0] != '"');
        assert(t[t.len() - 1] != '"');
    }
    assert(clean_spec(x) == t);
    lemma_nows_trim(x);
    // trim(trim(x)) has the characters of trim(x).
    lemma_trim_within(t);
    let tt = trim(t);
    lemma_lacks_sub(tt, t, '"');
    lemma_lacks_sub(tt, t, SHOW_OPEN);
    if tt.len() > 0 {
        assert(tt[0] != '"');
        assert(tt[tt.len() - 1] != '"');
    }
    assert(clean_spec(t) == tt);
    lemma_nows_trim(t);
    let pt = crate::text::is_char_at(t, SHOW_OPEN);
    assert forall|j: int| 0 <= j < t.len() implies !#[trigger] pt(j) by {}
    crate::text::lemma_first_at_none(t.len() as int, pt, 0);
    let ptt = crate::text::is_char_at(tt, SHOW_OPEN);
    assert forall|j: int| 0 <= j < tt.len() implies !#[trigger] ptt(j) by {}
    crate::text::lemma_first_at_none(tt.len() as int, ptt, 0);
}

proof fn lemma_ink_push(o: Seq<OutV>, e: OutV)
    ensures
        ink_text(o.push(e)) == ink_text(o) + match e {
            Ok(EventV::Ink(t)) => t,
            _ => Seq::<char>::empty(),
        },
{
    assert(o.push(e).drop_last() =~= o);
}

proof fn lemma_ink_concat(a: Seq<OutV>, b: Seq<OutV>)
    ensures
        ink_text(a + b) == ink_text(a) + ink_text(b),
    decreases b.len(),
{
    if b.len() == 0 {
        assert(a + b =~= a);
        assert(ink_text(a) + ink_text(b) =~= ink_text(a));
    } else {
        lemma_ink_concat(a, b.drop_last());
        assert((a + b).drop_last() =~= a + b.drop_last());
        assert((a + b).last() == b.last());
        assert(ink_text(a + b) =~= ink_text(a) + ink_text(b));
    }
}

/// The events of one call on a body without `"` and `⟦`: ink; at the end
/// of the stream the transcription `post` (when not empty), last but for
/// "empty reply" when nothing was ever inked.
pub open spec fn plain_events(o: Seq<OutV>, done: bool, post: Seq<char>, emitted: bool) -> bool {
    &&& forall|i: int|
        0 <= i < o.len() ==> match #[trigger] o[i] {
            Ok(EventV::Ink(_)) => true,
            Ok(EventV::Show(_)) => false,
            Ok(EventV::Transcript(x)) => done && post.len() > 0 && x == post && (emitted ==> i
                == o.len() - 1),
            Err(_) => done && !emitted,
        }
    &&& done && emitted && post.len() > 0 ==> o.len() > 0 && (o.last() matches Ok(
        EventV::Transcript(x),
    ) && x == post)
}

proof fn lemma_prose_cover(st: ParserState, t: Seq<char>, eff: int)
    requires
        0 <= st.delivered <= eff <= t.len(),
        lacks(t.subrange(0, eff), '"'),
        lacks(t.subrange(0, eff), SHOW_OPEN),
    ensures
        ({
            let (st1, o) = prose_step(st, t, eff, Seq::empty());
            &&& st.delivered <= st1.delivered <= eff
            &&& st1 == ParserState { delivered: st1.delivered, emitted_any: st1.emitted_any, ..st }
            &&& nows(ink_text(o)) == nows(t.subrange(st.delivered, st1.delivered))
            &&& st1.emitted_any == (st.emitted_any || ink_text(o).len() > 0)
            &&& forall|i: int| 0 <= i < o.len() ==> #[trigger] o[i] matches Ok(EventV::Ink(_))
        }),
{
    let d = st.delivered;
    let body = t.subrange(0, eff);
    let e0 = Seq::<OutV>::empty();
    assert(t.subrange(d, d) =~= Seq::<char>::empty());
    if d < eff {
        match sentence_cut(body, d) {
            Some(cut) => {
                crate::text::lemma_last_before(cut_fn(body, d), eff);
                let x = t.subrange(d, cut);
                assert(x =~= body.subrange(d, cut));
                lemma_within_subrange(body, d, cut);
                lemma_lacks_sub(x, body, '"');
                lemma_lacks_sub(x, body, SHOW_OPEN);
                lemma_piece(x);
                lemma_ink_push(e0, Ok(EventV::Ink(strip_spec(clean_spec(x)))));
                if strip_spec(clean_spec(x)).len() == 0 {
                    assert(nows(strip_spec(clean_spec(x))) =~= Seq::<char>::empty());
                }
            },
            None => {},
        }
    }
}

#[verifier::rlimit(40)]
proof fn lemma_flush_cover(st: ParserState, t: Seq<char>, eff: int, o: Seq<OutV>)
    requires
        0 <= st.delivered <= eff <= t.len(),
        lacks(t.subrange(0, eff), '"'),
        lacks(t.subrange(0, eff), SHOW_OPEN),
        st.sentinel matches Some(p) ==> p == eff && p < t.len(),
        forall|i: int| 0 <= i < o.len() ==> #[trigger] o[i] matches Ok(EventV::Ink(_)),
    ensures
        ({
            let (st2, o2) = flush_step(st, t, eff, o);
            let post = match st.sentinel {
                Some(p) => trim(t.subrange(p + 1, t.len() as int)),
                None => Seq::<char>::empty(),
            };
            &&& st2 == ParserState { delivered: eff, emitted_any: st2.emitted_any, ..st }
            &&& nows(ink_text(o2)) == nows(ink_text(o)) + nows(t.subrange(st.delivered, eff))
            &&& ink_text(o2).len() >= ink_text(o).len()
            &&& st2.emitted_any == (st.emitted_any || ink_text(o2).len() > ink_text(o).len())
            &&& plain_events(o2, true, post, st2.emitted_any)
        }),
{
    let d1 = st.delivered;
    let post = match st.sentinel {
        Some(p) => trim(t.subrange(p + 1, t.len() as int)),
        None => Seq::<char>::empty(),
    };
    let (st_b, out_b) = if d1 < eff {
        let rest = strip_spec(clean_spec(trim(t.subrange(d1, eff))));
        if rest.len() > 0 {
            (ParserState { delivered: eff, emitted_any: true, ..st }, o.push(Ok(EventV::Ink(rest))))
        } else {
            (ParserState { delivered: eff, ..st }, o)
        }
    } else {
        (st, o)
    };
    if d1 < eff {
        let body = t.subrange(0, eff);
        let y = t.subrange(d1, eff);
        assert(y =~= body.subrange(d1, eff));
        lemma_within_subrange(body, d1, eff);
        lemma_lacks_sub(y, body, '"');
        lemma_lacks_sub(y, body, SHOW_OPEN);
        lemma_piece(y);
        let rest = strip_spec(clean_spec(trim(y)));
        lemma_ink_push(o, Ok(EventV::Ink(rest)));
        if rest.len() == 0 {
            assert(nows(rest) =~= Seq::<char>::empty());
        }
        lemma_nows_concat(ink_text(o), rest);
    } else {
        assert(t.subrange(d1, eff) =~= Seq::<char>::empty());
        assert(nows(ink_text(o)) + nows(t.subrange(d1, eff)) =~= nows(ink_text(o)));
    }
    assert(nows(ink_text(out_b)) == nows(ink_text(o)) + nows(t.subrange(d1, eff)));
    assert(forall|i: int| 0 <= i < out_b.len() ==> #[trigger] out_b[i] matches Ok(EventV::Ink(_)));
    let out_c = match st_b.sentinel {
        Some(p) => {
            let tr = trim(t.subrange(p + 1, t.len() as int));
            if tr.len() > 0 {
                out_b.push(Ok(EventV::Transcript(tr)))
            } else {
                out_b
            }
        },
        None => out_b,
    };
    match st_b.sentinel {
        Some(p) => {
            lemma_ink_push(out_b, Ok(EventV::Transcript(trim(t.subrange(p + 1, t.len() as int)))));
            assert(ink_text(out_b) + Seq::<char>::empty() =~= ink_text(out_b));
        },
        None => {},
    }
    assert(ink_text(out_c) == ink_text(out_b));
    let out_d = if !st_b.emitted_any {
        out_c.push(Err(msg_empty()))
    } else {
        out_c
    };
    if !st_b.emitted_any {
        lemma_ink_push(out_c, Err(msg_empty()));
        assert(ink_text(out_c) + Seq::<char>::empty() =~= ink_text(out_c));
    }
    assert(ink_text(out_d) == ink_text(out_b));
    assert(flush_step(st, t, eff, o) == (st_b, out_d));
    assert forall|i: int| 0 <= i < out_d.len() implies match #[trigger] out_d[i] {
        Ok(EventV::Ink(_)) => true,
        Ok(EventV::Show(_)) => false,
        Ok(EventV::Transcript(x)) => post.len() > 0 && x == post && (st_b.emitted_any ==> i
            == out_d.len() - 1),
        Err(_) => !st_b.emitted_any,
    } by {
        if i < out_b.len() {
            assert(out_c[i] == out_b[i]);
            assert(out_d[i] == out_b[i]);
        } else if i < out_c.len() {
            assert(out_d[i] == out_c[i]);
        }
    }
}

proof fn lemma_body_cover(st: ParserState, t: Seq<char>, eff: int, done: bool)
    requires
        0 <= st.delivered <= eff <= t.len(),
        lacks(t.subrange(0, eff), '"'),
        lacks(t.subrange(0, eff), SHOW_OPEN),
        st.sentinel matches Some(p) ==> p == eff && p < t.len(),
    ensures
        ({
            let (st2, o) = body_step(st, t, eff, done, Seq::empty());
            let post = match st.sentinel {
                Some(p) => trim(t.subrange(p + 1, t.len() as int)),
                None => Seq::<char>::empty(),
            };
            &&& st.delivered <= st2.delivered <= eff
            &&& done ==> st2.delivered == eff
            &&& st2.sentinel == st.sentinel
            &&& st2.route_checked == st.route_checked
            &&& nows(ink_text(o)) == nows(t.subrange(st.delivered, st2.delivered))
            &&& st2.emitted_any == (st.emitted_any || ink_text(o).len() > 0)
            &&& plain_events(o, done, post, st2.emitted_any)
        }),
{
    reveal(body_step);
    let d = st.delivered;
    let (st1, out1) = prose_step(st, t, eff, Seq::empty());
    lemma_prose_cover(st, t, eff);
    if done {
        lemma_flush_cover(st1, t, eff, out1);
        let d1 = st1.delivered;
        assert(t.subrange(d, eff) =~= t.subrange(d, d1) + t.subrange(d1, eff));
        lemma_nows_concat(t.subrange(d, d1), t.subrange(d1, eff));
    }
}

/// The reply body of `full`: everything before its first `⁂`.
pub open spec fn reply_body(full: Seq<char>) -> Seq<char> {
    full.subrange(0, effective(find_char(full, SENTINEL), full))
}

/// The transcription of `full`: the trimmed text after its first `⁂`
/// (nothing without one).
pub open spec fn postscript(full: Seq<char>) -> Seq<char> {
    match find_char(full, SENTINEL) {
        Some(p) => trim(full.subrange(p + 1, full.len() as int)),
        None => Seq::empty(),
    }
}

/// The state of a fresh parser over the catalog `ids`.
pub open spec fn start_state(ids: Seq<u64>) -> ParserState {
    ParserState {
        delivered: 0,
        sentinel: None,
        route_checked: false,
        emitted_any: false,
        catalog_ids: ids,
        seen: Seq::empty(),
    }
}

proof fn lemma_sentinel_prefix(t: Seq<char>, f: Seq<char>)
    requires
        extends(f, t),
    ensures
        match find_char(t, SENTINEL) {
            Some(p) => find_char(f, SENTINEL) == Some(p),
            None => effective(find_char(f, SENTINEL), f) >= t.len(),
        },
        effective(find_char(f, SENTINEL), f) <= f.len(),
{
    lemma_find_char_prefix(t, f, SENTINEL);
    lemma_first_at(f.len() as int, crate::text::is_char_at(f, SENTINEL), 0);
}

/// What one call does to a growing run over the final text `f`.
#[verifier::opaque]
spec fn step_inv(s1: ParserState, s2: ParserState, o: Seq<OutV>, done: bool, f: Seq<char>) -> bool {
    let b = reply_body(f);
    &&& s1.delivered <= s2.delivered <= b.len()
    &&& s2.sentinel matches Some(p) ==> find_char(f, SENTINEL) == Some(p)
    &&& nows(ink_text(o)) == nows(b.subrange(s1.delivered, s2.delivered))
    &&& s2.emitted_any == (s1.emitted_any || ink_text(o).len() > 0)
    &&& plain_events(o, done, postscript(f), s2.emitted_any)
    &&& done ==> s2.delivered == b.len()
}

/// Where a growing run over the final text `f` stands after some calls.
#[verifier::opaque]
spec fn cover_inv(s: ParserState, o: Seq<OutV>, done: bool, f: Seq<char>) -> bool {
    let b = reply_body(f);
    &&& 0 <= s.delivered <= b.len()
    &&& s.sentinel matches Some(p) ==> find_char(f, SENTINEL) == Some(p)
    &&& nows(ink_text(o)) == nows(b.subrange(0, s.delivered))
    &&& s.emitted_any == (ink_text(o).len() > 0)
    &&& plain_events(o, done, postscript(f), s.emitted_any)
    &&& done ==> s.delivered == b.len()
}

#[verifier::rlimit(40)]
proof fn lemma_step_cover(s1: ParserState, t: Seq<char>, done: bool, f: Seq<char>)
    requires
        ready(s1, t),
        extends(f, t),
        done ==> t == f,
        s1.sentinel matches Some(p) ==> find_char(f, SENTINEL) == Some(p),
        lacks(reply_body(f), '"'),
        lacks(reply_body(f), SHOW_OPEN),
    ensures
        step_inv(s1, advance_spec(s1, t, done).0, advance_spec(s1, t, done).1, done, f),
{
    reveal(step_inv);
    let b = reply_body(f);
    let ef = effective(find_char(f, SENTINEL), f);
    let sent = located(s1, t);
    let eff = effective(sent, t);
    let st1 = ParserState { sentinel: sent, ..s1 };
    let d = s1.delivered;
    lemma_sentinel_prefix(t, f);
    if s1.sentinel is None {
        lemma_first_at(t.len() as int, crate::text::is_char_at(t, SENTINEL), 0);
    }
    assert(eff <= ef && eff <= t.len());
    assert(sent matches Some(p) ==> p == eff && p < t.len() && find_char(f, SENTINEL) == Some(p));
    assert(done ==> sent == find_char(f, SENTINEL) && eff == ef);
    // The body seen so far is a prefix of the whole body.
    assert forall|j: int| 0 <= j < eff implies #[trigger] t[j] == b[j] by {
        assert(f.subrange(0, t.len() as int)[j] == f[j]);
    }
    let tb = t.subrange(0, eff);
    assert(tb =~= b.subrange(0, eff));
    lemma_within_subrange(b, 0, eff);
    lemma_lacks_sub(tb, b, '"');
    lemma_lacks_sub(tb, b, SHOW_OPEN);
    if !st1.route_checked {
        let x = t.subrange(d, eff);
        let lead = trim_start(x);
        lemma_first_at(x.len() as int, crate::text::non_ws_at(x), 0);
        if lead.len() > 0 {
            let k = first_at(x.len() as int, crate::text::non_ws_at(x), 0).unwrap();
            assert(lead[0] == x[k]);
            assert(x[k] == tb[d + k]);
        }
        assert(!(lead.len() > 0 && lead[0] == SHOW_OPEN));
        if lead.len() == 0 && !done {
            assert(t.subrange(d, d) =~= Seq::<char>::empty());
            assert(b.subrange(d, d) =~= Seq::<char>::empty());
            assert(ink_text(Seq::<OutV>::empty()) =~= Seq::<char>::empty());
        } else {
            lemma_body_cover(ParserState { route_checked: true, ..st1 }, t, eff, done);
        }
    } else {
        lemma_body_cover(st1, t, eff, done);
    }
    let (s2, o) = advance_spec(s1, t, done);
    assert(d <= s2.delivered <= eff);
    assert(t.subrange(d, s2.delivered) =~= b.subrange(d, s2.delivered));
}

proof fn lemma_run_cover_inner(st: ParserState, texts: Seq<Seq<char>>, done: bool, f: Seq<char>)
    requires
        texts.len() > 0,
        growing(texts),
        ready(st, texts[0]),
        forall|i: int| 0 <= i < texts.len() ==> extends(f, #[trigger] texts[i]),
        done ==> texts.last() == f,
        st.sentinel is None,
        st.delivered == 0,
        !st.emitted_any,
        lacks(reply_body(f), '"'),
        lacks(reply_body(f), SHOW_OPEN),
    ensures
        cover_inv(run_spec(st, texts, done).0, run_spec(st, texts, done).1, done, f),
    decreases texts.len(),
{
    let init = texts.drop_last();
    let (s1, o1) = run_spec(st, init, false);
    let t = texts.last();
    let (s2, o2) = advance_spec(s1, t, done);
    if texts.len() == 1 {
        assert(init =~= Seq::<Seq<char>>::empty());
        assert(s1 == st && o1 =~= Seq::<OutV>::empty());
        lemma_cover_start(st, f);
    } else {
        assert(growing(init));
        assert(forall|i: int| 0 <= i < init.len() ==> init[i] == texts[i]);
        lemma_run_cover_inner(st, init, false, f);
        lemma_run_ready(st, texts, done);
    }
    assert(ready(s1, t));
    assert(extends(f, texts[texts.len() - 1]));
    assert(s1.sentinel matches Some(p) ==> find_char(f, SENTINEL) == Some(p)) by {
        reveal(cover_inv);
    }
    lemma_step_cover(s1, t, done, f);
    assert(run_spec(st, texts, done) == (s2, o1 + o2));
    lemma_cover_next(s1, o1, s2, o2, done, f);
}

proof fn lemma_cover_start(st: ParserState, f: Seq<char>)
    requires
        st.sentinel is None,
        st.delivered == 0,
        !st.emitted_any,
    ensures
        cover_inv(st, Seq::empty(), false, f),
{
    reveal(cover_inv);
    assert(f.subrange(0, f.len() as int) =~= f);
    lemma_sentinel_prefix(f, f);
    assert(ink_text(Seq::<OutV>::empty()) =~= Seq::<char>::empty());
    assert(reply_body(f).subrange(0, 0) =~= Seq::<char>::empty());
}

proof fn lemma_cover_next(s1: ParserState, o1: Seq<OutV>, s2: ParserState, o2: Seq<OutV>, done: bool, f: Seq<char>)
    requires
        cover_inv(s1, o1, false, f),
        step_inv(s1, s2, o2, done, f),
    ensures
        cover_inv(s2, o1 + o2, done, f),
{
    reveal(cover_inv);
    reveal(step_inv);
    lemma_cover_combine(reply_body(f), s1.delivered, s2.delivered, o1, o2);
    lemma_plain_concat(o1, o2, done, postscript(f), s1.emitted_any, s2.emitted_any);
}

proof fn lemma_cover_combine(b: Seq<char>, d1: int, d2: int, o1: Seq<OutV>, o2: Seq<OutV>)
    requires
        0 <= d1 <= d2 <= b.len(),
        nows(ink_text(o1)) == nows(b.subrange(0, d1)),
        nows(ink_text(o2)) == nows(b.subrange(d1, d2)),
    ensures
        nows(ink_text(o1 + o2)) == nows(b.subrange(0, d2)),
        (ink_text(o1 + o2).len() > 0) == (ink_text(o1).len() > 0 || ink_text(o2).len() > 0),
{
    lemma_ink_concat(o1, o2);
    lemma_nows_concat(ink_text(o1), ink_text(o2));
    assert(b.subrange(0, d2) =~= b.subrange(0, d1) + b.subrange(d1, d2));
    lemma_nows_concat(b.subrange(0, d1), b.subrange(d1, d2));
}

proof fn lemma_plain_concat(o1: Seq<OutV>, o2: Seq<OutV>, done: bool, post: Seq<char>, e1: bool, e2: bool)
    requires
        plain_events(o1, false, post, e1),
        plain_events(o2, done, post, e2),
    ensures
        plain_events(o1 + o2, done, post, e2),
{
    let o = o1 + o2;
    assert forall|i: int| 0 <= i < o.len() implies match #[trigger] o[i] {
        Ok(EventV::Ink(_)) => true,
        Ok(EventV::Show(_)) => false,
        Ok(EventV::Transcript(x)) => done && post.len() > 0 && x == post && (e2 ==> i
            == o.len() - 1),
        Err(_) => done && !e2,
    } by {
        if i < o1.len() {
            assert(o[i] == o1[i]);
        } else {
            assert(o[i] == o2[i - o1.len()]);
        }
    }
    if o2.len() > 0 {
        assert(o.last() == o2.last());
    }
}

/// Law: fed the running text of one reply in any number of pieces, the
/// parser inks the reply body once. When the body (the text before the
/// first `⁂`) holds no `"` and no `⟦` and is not blank, every event is ink
/// but for a last transcription; the ink, piece after piece, is the body
/// but for whitespace, however the stream was split; and the transcription
/// comes exactly when the trimmed text after `⁂` is not empty, and is that
/// text.
pub proof fn lemma_run_covers_body(ids: Seq<u64>, texts: Seq<Seq<char>>)
    requires
        texts.len() > 0,
        growing(texts),
        lacks(reply_body(texts.last()), '"'),
        lacks(reply_body(texts.last()), SHOW_OPEN),
        trim(reply_body(texts.last())).len() > 0,
    ensures
        ({
            let out = run_spec(start_state(ids), texts, true).1;
            let post = postscript(texts.last());
            &&& forall|i: int|
                0 <= i < out.len() ==> (#[trigger] out[i] matches Ok(EventV::Ink(_))) || (i
                    == out.len() - 1 && post.len() > 0 && (out[i] matches Ok(
                    EventV::Transcript(x),
                ) && x == post))
            &&& nows(ink_text(out)) == nows(reply_body(texts.last()))
            &&& post.len() > 0 ==> out.len() > 0 && (out.last() matches Ok(
                EventV::Transcript(x),
            ) && x == post)
        }),
{
    let f = texts.last();
    let st = start_state(ids);
    let b = reply_body(f);
    assert(texts[0].subrange(0, 0) =~= Seq::<char>::empty());
    lemma_first_at(texts[0].len() as int, crate::text::is_char_at(texts[0], SENTINEL), 0);
    assert forall|i: int| 0 <= i < texts.len() implies extends(f, #[trigger] texts[i]) by {
        lemma_growing_extends(texts, i);
    }
    lemma_run_cover_inner(st, texts, true, f);
    reveal(cover_inv);
    let (s, out) = run_spec(st, texts, true);
    assert(b.subrange(0, b.len() as int) =~= b);
    // A body that is not blank leaves ink behind.
    lemma_nows_trim(b);
    crate::text::lemma_trim_edges(b);
    let tb = trim(b);
    assert(tb =~= seq![tb[0]] + tb.drop_first());
    lemma_nows_concat(seq![tb[0]], tb.drop_first());
    assert(seq![tb[0]].drop_last() =~= Seq::<char>::empty());
    assert(!is_ws(tb[0]));
    reveal_with_fuel(nows, 2);
    assert(nows(seq![tb[0]]) =~= seq![tb[0]]);
    assert(nows(b).len() > 0);
    if ink_text(out).len() == 0 {
        assert(ink_text(out) =~= Seq::<char>::empty());
        assert(nows(ink_text(out)) =~= Seq::<char>::empty());
    }
    assert(s.emitted_any);
}

/// In a growing run each text extends every one before it.
proof fn lemma_growing_extends(texts: Seq<Seq<char>>, i: int)
    requires
        growing(texts),
        0 <= i < texts.len(),
    ensures
        extends(texts.last(), texts[i]),
    decreases texts.len() - i,
{
    if i == texts.len() - 1 {
        assert(texts[i].subrange(0, texts[i].len() as int) =~= texts[i]);
    } else {
        lemma_growing_extends(texts, i + 1);
        assert(extends(texts[i + 1], texts[i]));
        lemma_extends_trans(texts[i], texts[i + 1], texts.last());
    }
}

// ---------------------------------------------------------------------------
// Law: a conjuring names the entry of the leading directive.
// ---------------------------------------------------------------------------

/// The text inside a leading `⟦…⟧` of `body` (after blanks), once closed.
pub open spec fn directive_inner(body: Seq<char>) -> Option<Seq<char>> {
    let lead = trim_start(body);
    if lead.len() > 0 && lead[0] == SHOW_OPEN {
        match find_char(lead, SHOW_CLOSE) {
            Some(c) => Some(lead.subrange(1, c)),
            None => None,
        }
    } else {
        None
    }
}

/// The event a closed leading directive with text `inner` gives.
pub open spec fn first_event(inner: Seq<char>, ids: Seq<u64>) -> OutV {
    match show_target(inner, ids) {
        Some(id) => Ok(EventV::Show(id)),
        None => Err(msg_lost(inner)),
    }
}

proof fn lemma_find_char_prefix(t: Seq<char>, f: Seq<char>, c: char)
    requires
        extends(f, t),
    ensures
        match find_char(t, c) {
            Some(p) => find_char(f, c) == Some(p),
            None => match find_char(f, c) {
                Some(q) => q >= t.len(),
                None => true,
            },
        },
{
    let pt = crate::text::is_char_at(t, c);
    let pf = crate::text::is_char_at(f, c);
    lemma_first_at(t.len() as int, pt, 0);
    lemma_first_at(f.len() as int, pf, 0);
    assert forall|j: int| 0 <= j < t.len() implies f[j] == t[j] by {
        assert(f.subrange(0, t.len() as int)[j] == f[j]);
    }
    match find_char(t, c) {
        Some(p) => {
            assert forall|j: int| 0 <= j < p implies !#[trigger] pf(j) by {
                assert(!pt(j));
            }
            assert(pf(p));
            crate::text::lemma_first_at_is(f.len() as int, pf, 0, p);
        },
        None => {
            match find_char(f, c) {
                Some(q) => {
                    if q < t.len() {
                        assert(pt(q));
                    }
                },
                None => {},
            }
        },
    }
}

/// Leading blanks of a prefix are those of the whole: what is left of the
/// prefix starts the rest of the whole.
proof fn lemma_trim_start_prefix(x: Seq<char>, y: Seq<char>)
    requires
        extends(y, x),
        trim_start(x).len() > 0,
    ensures
        extends(trim_start(y), trim_start(x)),
{
    let px = crate::text::non_ws_at(x);
    let py = crate::text::non_ws_at(y);
    lemma_first_at(x.len() as int, px, 0);
    assert forall|j: int| 0 <= j < x.len() implies y[j] == x[j] by {
        assert(y.subrange(0, x.len() as int)[j] == y[j]);
    }
    let k = first_at(x.len() as int, px, 0).unwrap();
    assert forall|j: int| 0 <= j < k implies !#[trigger] py(j) by {
        assert(!px(j));
    }
    assert(py(k));
    crate::text::lemma_first_at_is(y.len() as int, py, 0, k);
    assert(trim_start(y).subrange(0, trim_start(x).len() as int) =~= trim_start(x));
}

/// The leading directive of a prefix of the body is that of the body.
proof fn lemma_directive_prefix(x: Seq<char>, y: Seq<char>)
    requires
        extends(y, x),
        trim_start(x).len() > 0,
    ensures
        trim_start(x)[0] == SHOW_OPEN ==> match find_char(trim_start(x), SHOW_CLOSE) {
            Some(c) => directive_inner(y) == Some(trim_start(x).subrange(1, c)),
            None => true,
        },
        trim_start(x)[0] != SHOW_OPEN ==> directive_inner(y) is None,
{
    lemma_trim_start_prefix(x, y);
    let lx = trim_start(x);
    let ly = trim_start(y);
    assert(ly[0] == lx[0]);
    lemma_find_char_prefix(lx, ly, SHOW_CLOSE);
    match find_char(lx, SHOW_CLOSE) {
        Some(c) => {
            lemma_first_at(lx.len() as int, crate::text::is_char_at(lx, SHOW_CLOSE), 0);
            if lx[0] == SHOW_OPEN {
                assert(c >= 1);
                assert forall|j: int| 0 <= j < lx.len() implies ly[j] == lx[j] by {
                    assert(ly.subrange(0, lx.len() as int)[j] == ly[j]);
                }
                assert(ly.subrange(1, c) =~= lx.subrange(1, c));
            }
        },
        None => {},
    }
}

/// Where a growing run over the final text `f` stands on conjuring and ink.
#[verifier::opaque]
spec fn stream_inv(s: ParserState, o: Seq<OutV>, done: bool, f: Seq<char>, ids: Seq<u64>) -> bool {
    let b = reply_body(f);
    &&& forall|i: int|
        0 <= i < o.len() ==> (#[trigger] o[i] matches Ok(EventV::Ink(x)) ==> x.len() > 0 && lacks(
            x,
            SHOW_OPEN,
        ) && lacks(x, SENTINEL))
    &&& s.catalog_ids == ids
    &&& s.sentinel matches Some(p) ==> find_char(f, SENTINEL) == Some(p)
    &&& !s.route_checked ==> s.delivered == 0 && (!done ==> o.len() == 0) && (done
        ==> directive_inner(b) is None)
    &&& s.route_checked ==> match directive_inner(b) {
        Some(inner) => o.len() > 0 && o[0] == first_event(inner, ids),
        None => true,
    }
    &&& forall|i: int|
        0 <= i < o.len() ==> (#[trigger] o[i] matches Ok(EventV::Show(id)) ==> i == 0 && (
        directive_inner(b) matches Some(inner) && show_target(inner, ids) == Some(id)))
}

#[verifier::rlimit(60)]
proof fn lemma_step_stream(
    s1: ParserState,
    o1: Seq<OutV>,
    t: Seq<char>,
    done: bool,
    f: Seq<char>,
    ids: Seq<u64>,
)
    requires
        ready(s1, t),
        extends(f, t),
        done ==> t == f,
        stream_inv(s1, o1, false, f, ids),
    ensures
        stream_inv(advance_spec(s1, t, done).0, o1 + advance_spec(s1, t, done).1, done, f, ids),
{
    reveal(stream_inv);
    let b = reply_body(f);
    let ef = effective(find_char(f, SENTINEL), f);
    let sent = located(s1, t);
    let eff = effective(sent, t);
    let st1 = ParserState { sentinel: sent, ..s1 };
    let d = s1.delivered;
    let (s2, o2) = advance_spec(s1, t, done);
    let o = o1 + o2;
    lemma_sentinel_prefix(t, f);
    if s1.sentinel is None {
        lemma_first_at(t.len() as int, crate::text::is_char_at(t, SENTINEL), 0);
    }
    assert(eff <= ef && eff <= t.len());
    assert(sent matches Some(p) ==> p == eff && find_char(f, SENTINEL) == Some(p));
    assert(done ==> eff == ef);
    assert forall|j: int| 0 <= j < eff implies #[trigger] t[j] == b[j] by {
        assert(f.subrange(0, t.len() as int)[j] == f[j]);
    }
    let x = t.subrange(0, eff);
    assert(x =~= b.subrange(0, eff));
    assert(extends(b, x));
    // Ink is drawn from the body, which holds no `⁂`.
    lemma_first_at(f.len() as int, crate::text::is_char_at(f, SENTINEL), 0);
    assert forall|j: int| 0 <= j < x.len() implies #[trigger] x[j] != SENTINEL by {
        assert(x[j] == f[j]);
        assert(!crate::text::is_char_at(f, SENTINEL)(j));
    }
    lemma_advance_events_ok(s1, t, done);
    assert forall|i: int| 0 <= i < o.len() implies (#[trigger] o[i] matches Ok(EventV::Ink(y))
        ==> y.len() > 0 && lacks(y, SHOW_OPEN) && lacks(y, SENTINEL)) by {
        if i < o1.len() {
            assert(o[i] == o1[i]);
        } else {
            assert(o[i] == o2[i - o1.len()]);
            assert(event_ok(o2[i - o1.len()], s1.catalog_ids, x, done));
            match o[i] {
                Ok(EventV::Ink(y)) => {
                    assert forall|j: int| 0 <= j < y.len() implies #[trigger] y[j] != SENTINEL by {
                        if y[j] != ' ' {
                            assert(x.contains(y[j]));
                        }
                    }
                },
                _ => {},
            }
        }
    }
    if !st1.route_checked {
        assert(o1.len() == 0);
        assert(o =~= o2);
        assert(t.subrange(d, eff) == x);
        let lead = trim_start(x);
        if lead.len() > 0 {
            lemma_directive_prefix(x, b);
        } else if done {
            assert(x =~= b);
        }
        if lead.len() > 0 && lead[0] == SHOW_OPEN {
            match find_char(lead, SHOW_CLOSE) {
                None => {
                    if done {
                        assert(x =~= b);
                    }
                },
                Some(close) => {
                    lemma_first_at(lead.len() as int, crate::text::is_char_at(lead, SHOW_CLOSE), 0);
                    let inner = lead.subrange(1, close);
                    assert(directive_inner(b) == Some(inner));
                    let first = match show_target(inner, st1.catalog_ids) {
                        Some(id) => Ok(EventV::Show(id)),
                        None => Err(msg_lost(inner)),
                    };
                    assert(first == first_event(inner, ids));
                    let st3 = ParserState { route_checked: true, emitted_any: true, delivered: eff, ..st1 };
                    lemma_body_step_shape(st3, t, eff, done, seq![first]);
                    assert(advance_core(s1, t, done) == body_step(st3, t, eff, done, seq![first]));
                    let o3 = body_step(st3, t, eff, done, seq![first]).1;
                    assert(o3.subrange(0, 1)[0] == o3[0]);
                    assert(o2[0] == first_event(inner, ids));
                },
            }
        } else if lead.len() == 0 {
            if done {
                lemma_body_step_shape(ParserState { route_checked: true, ..st1 }, t, eff, done, Seq::empty());
            }
        } else {
            lemma_body_step_shape(ParserState { route_checked: true, ..st1 }, t, eff, done, Seq::empty());
        }
    } else {
        lemma_body_step_shape(st1, t, eff, done, Seq::empty());
        assert forall|i: int| 0 <= i < o.len() implies (#[trigger] o[i] matches Ok(EventV::Show(id))
            ==> i == 0 && (directive_inner(b) matches Some(inner) && show_target(inner, ids) == Some(id))) by {
            if i < o1.len() {
                assert(o[i] == o1[i]);
            } else {
                assert(o[i] == o2[i - o1.len()]);
            }
        }
        if directive_inner(b) is Some {
            assert(o[0] == o1[0]);
        }
    }
}

proof fn lemma_run_stream_inner(st: ParserState, texts: Seq<Seq<char>>, done: bool, f: Seq<char>)
    requires
        texts.len() > 0,
        growing(texts),
        ready(st, texts[0]),
        forall|i: int| 0 <= i < texts.len() ==> extends(f, #[trigger] texts[i]),
        done ==> texts.last() == f,
        st.sentinel is None,
        st.delivered == 0,
        !st.route_checked,
    ensures
        stream_inv(run_spec(st, texts, done).0, run_spec(st, texts, done).1, done, f, st.catalog_ids),
    decreases texts.len(),
{
    let init = texts.drop_last();
    let (s1, o1) = run_spec(st, init, false);
    let t = texts.last();
    if texts.len() == 1 {
        assert(init =~= Seq::<Seq<char>>::empty());
        assert(s1 == st && o1 =~= Seq::<OutV>::empty());
        assert(stream_inv(s1, o1, false, f, st.catalog_ids)) by {
            reveal(stream_inv);
        }
    } else {
        assert(growing(init));
        assert(forall|i: int| 0 <= i < init.len() ==> init[i] == texts[i]);
        lemma_run_stream_inner(st, init, false, f);
        lemma_run_ready(st, texts, done);
    }
    assert(ready(s1, t));
    assert(extends(f, texts[texts.len() - 1]));
    lemma_step_stream(s1, o1, t, done, f, st.catalog_ids);
    assert(run_spec(st, texts, done) == (advance_spec(s1, t, done).0, o1 + advance_spec(s1, t, done).1));
}

/// Law: over a whole stream, fed the running text of one reply, a
/// conjuring can only be the very first event (so it comes at most once,
/// and never after ink), and it names the catalog entry of the body's
/// leading `⟦…⟧` (after blanks): its text, lowercased, begins with `show`,
/// what follows, less leading `:`s and spaces and trimmed, parses as `k`
/// in `1..=ids.len()`, and the conjuring is `ids[k - 1]`. Once the stream
/// has ended, a body that opens with a closed directive always gets that
/// conjuring, or "the diary lost that page (…)" when its text names no
/// entry, as the first event.
pub proof fn lemma_run_conjuring_names(ids: Seq<u64>, texts: Seq<Seq<char>>, done: bool)
    requires
        texts.len() > 0,
        growing(texts),
    ensures
        ({
            let out = run_spec(start_state(ids), texts, done).1;
            let b = reply_body(texts.last());
            &&& forall|i: int|
                0 <= i < out.len() ==> (#[trigger] out[i] matches Ok(EventV::Show(id)) ==> i == 0
                    && (directive_inner(b) matches Some(inner) && show_target(inner, ids) == Some(
                    id,
                )))
            &&& done ==> match directive_inner(b) {
                Some(inner) => out.len() > 0 && out[0] == first_event(inner, ids),
                None => true,
            }
        }),
{
    let f = texts.last();
    let st = start_state(ids);
    assert(texts[0].subrange(0, 0) =~= Seq::<char>::empty());
    lemma_first_at(texts[0].len() as int, crate::text::is_char_at(texts[0], SENTINEL), 0);
    assert forall|i: int| 0 <= i < texts.len() implies extends(f, #[trigger] texts[i]) by {
        lemma_growing_extends(texts, i);
    }
    lemma_run_stream_inner(st, texts, done, f);
    reveal(stream_inv);
}

/// Law: over a whole stream, fed the running text of one reply, every
/// piece of ink is non-empty and holds neither `⟦` nor `⁂`: prose never
/// crosses into the postscript, and directive glyphs are never inked.
pub proof fn lemma_run_ink_clean(ids: Seq<u64>, texts: Seq<Seq<char>>, done: bool)
    requires
        texts.len() > 0,
        growing(texts),
    ensures
        ({
            let out = run_spec(start_state(ids), texts, done).1;
            forall|i: int|
                0 <= i < out.len() ==> (#[trigger] out[i] matches Ok(EventV::Ink(x)) ==> x.len()
                    > 0 && lacks(x, SHOW_OPEN) && lacks(x, SENTINEL))
        }),
{
    let f = texts.last();
    let st = start_state(ids);
    assert(texts[0].subrange(0, 0) =~= Seq::<char>::empty());
    lemma_first_at(texts[0].len() as int, crate::text::is_char_at(texts[0], SENTINEL), 0);
    assert forall|i: int| 0 <= i < texts.len() implies extends(f, #[trigger] texts[i]) by {
        lemma_growing_extends(texts, i);
    }
    lemma_run_stream_inner(st, texts, done, f);
    reveal(stream_inv);
}

} // verus!
