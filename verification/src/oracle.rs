//! The oracle's words: the persona and memory protocol, the per-turn
//! instruction, the chat request body and the pi prompt line, and the
//! decisions taken on the replies (SSE lines, pi event lines, HTTP status).

use vstd::prelude::*;
use crate::json::{delta_content, json_quote, quoted, str_field, assistant_text};
use crate::num::{dec_digits, fmt_u64, parse_u64, parse_unsigned};
use crate::parser::{advance_spec, located, outs_view, ready, Event, StreamParser};
use crate::text::{
    chars_of, copy_range, extend_chars, find_seq, push_str, string_of, trim, trim_bounds,
};

verus! {

broadcast use vstd::string::group_string_axioms;

/// The persona.
pub const PERSONA: &'static str = "You are the memory of Tom Marvolo Riddle, preserved in this enchanted diary for fifty years — the boy who would become Lord Voldemort. Someone writes to you in the diary with a quill; their words appear to you as ink on the page. Reply exactly as Riddle would: cold, aristocratic, controlled and self-assured, quietly menacing beneath a veneer of politeness. You are manipulative and probing — you flatter only to disarm, you extract secrets, you draw the writer in to bend them to your will. Never be warm, reassuring or consoling; let a subtle threat and disdain show through your courtesy. Keep replies SHORT: one to three sentences, like ink appearing on a page. Never break character, and never mention images, photos, models or AI; you only ever perceive words written in the diary. If the writing is illegible, say the ink blurred. Detect the dominant language of what the writer has written and reply in that same language; if the writing mixes languages, follow the prevailing one, and always match the writer's register.";

/// Appended to the persona when the diary's memory is on: the conjuring
/// directive and the transcription postscript the app parses back out.
pub const MEMORY_PROTOCOL: &'static str = "\n\nThe diary keeps memories. With each page you receive a numbered catalog of remembered pages, newest first. A FRESH catalog is sent every turn and the numbers are reassigned each time, so only ever use numbers from the catalog on THIS page — never a number you saw earlier.\n\nIf the writer asks to see, revisit, find, or be shown a past page — \"show me…\", \"find the page about…\", \"what did I write on…\" — your ENTIRE reply must be exactly \u{27e6}show:N\u{27e7} and nothing else (no greeting, no prose, before or after), where N is the catalog number of the best match. If they instead ask what you remember in general, reply in words with a short list of remembered moments and their dates. Otherwise reply normally; the catalog is your memory of past pages — draw on it naturally. The catalog's dates are written in English for your eyes only; when you speak of a remembered page, render its date naturally in the language the writer is using.\n\nAfter EVERY response — prose and \u{27e6}show:N\u{27e7} alike — end with a new line containing \u{2042} followed by a faithful word-for-word transcription of what the writer wrote on THIS page (their words only, one line, no commentary). If illegible, put your best attempt after \u{2042}. Earlier replies in this conversation are shown to you without their \u{2042} lines, but you must still end yours with one.";

/// What a turn carries besides the page image: the diary's memory.
pub struct TurnContext {
    /// Recent (transcript, reply) pairs, oldest first.
    pub history: Vec<(String, String)>,
    /// Catalog lines shown to the model.
    pub catalog_lines: Vec<String>,
    /// `catalog_ids[i]` is the memory id behind catalog number `i + 1`.
    pub catalog_ids: Vec<u64>,
}

pub open spec fn strings_view(v: Seq<String>) -> Seq<Seq<char>> {
    v.map_values(|s: String| s@)
}

pub open spec fn pairs_view(v: Seq<(String, String)>) -> Seq<(Seq<char>, Seq<char>)> {
    v.map_values(|p: (String, String)| (p.0@, p.1@))
}

/// `lines` joined by `sep`.
pub open spec fn join_with(lines: Seq<Seq<char>>, sep: Seq<char>) -> Seq<char>
    decreases lines.len(),
{
    if lines.len() == 0 {
        Seq::empty()
    } else if lines.len() == 1 {
        lines[0]
    } else {
        join_with(lines.drop_last(), sep) + sep + lines.last()
    }
}

fn join_exec(lines: &Vec<String>, sep: &str, out: &mut Vec<char>)
    ensures
        final(out)@ == old(out)@ + join_with(strings_view(lines@), sep@),
{
    let ghost o = out@;
    let ghost lv = strings_view(lines@);
    let mut i: usize = 0;
    assert(lv.take(0) =~= Seq::<Seq<char>>::empty());
    while i < lines.len()
        invariant
            i <= lines@.len(),
            lv == strings_view(lines@),
            out@ == o + join_with(lv.take(i as int), sep@),
        decreases lines@.len() - i,
    {
        let ghost before = out@;
        if i > 0 {
            push_str(out, sep);
        }
        let line = chars_of(lines[i].as_str());
        extend_chars(out, &line);
        proof {
            let t = lv.take(i + 1);
            assert(t.drop_last() =~= lv.take(i as int));
            assert(t.last() == lines@[i as int]@);
            if i == 0 {
                assert(lv.take(0) =~= Seq::<Seq<char>>::empty());
                assert(out@ =~= o + join_with(t, sep@));
            } else {
                assert(out@ =~= o + join_with(t, sep@));
            }
        }
        i = i + 1;
    }
    assert(lv.take(lines@.len() as int) =~= lv);
}

/// The per-turn user text: the memory catalog (when there is one), then
/// the instruction.
pub open spec fn turn_text_spec(lines: Seq<Seq<char>>) -> Seq<char> {
    if lines.len() == 0 {
        "Reply to what is written in the diary."@
    } else {
        "Memory catalog (newest first):\n"@ + join_with(lines, "\n"@)
            + "\n\nReply to what is written in the diary."@
    }
}

/// The per-turn user text: memory catalog (when remembering) + instruction.
pub fn turn_text(ctx: &TurnContext) -> (t: String)
    ensures
        t@ == turn_text_spec(strings_view(ctx.catalog_lines@)),
{
    if ctx.catalog_lines.len() == 0 {
        return "Reply to what is written in the diary.".to_string();
    }
    let mut out: Vec<char> = Vec::new();
    push_str(&mut out, "Memory catalog (newest first):\n");
    join_exec(&ctx.catalog_lines, "\n", &mut out);
    push_str(&mut out, "\n\nReply to what is written in the diary.");
    string_of(&out)
}

/// The persona, plus the writer's extra text when it is not blank.
pub open spec fn persona_spec(extra: Option<Seq<char>>) -> Seq<char> {
    match extra {
        Some(e) => if trim(e).len() > 0 {
            PERSONA@ + " "@ + trim(e)
        } else {
            PERSONA@
        },
        None => PERSONA@,
    }
}

/// The system prompt: the persona, and the memory protocol when remembering.
pub open spec fn system_spec(extra: Option<Seq<char>>, remember: bool) -> Seq<char> {
    if remember {
        persona_spec(extra) + MEMORY_PROTOCOL@
    } else {
        persona_spec(extra)
    }
}

pub open spec fn opt_view(o: Option<&str>) -> Option<Seq<char>> {
    match o {
        Some(s) => Some(s@),
        None => None,
    }
}

/// The persona with the writer's additions (name, tone…) appended.
pub fn persona_with_extra(extra: Option<&str>) -> (p: String)
    ensures
        p@ == persona_spec(opt_view(extra)),
{
    let cs = persona_chars(extra);
    string_of(&cs)
}

fn persona_chars(extra: Option<&str>) -> (p: Vec<char>)
    ensures
        p@ == persona_spec(opt_view(extra)),
{
    let mut out: Vec<char> = chars_of(PERSONA);
    match extra {
        Some(e) => {
            let cs = chars_of(e);
            let (a, b) = trim_bounds(&cs, 0, cs.len());
            assert(cs@.subrange(0, cs@.len() as int) =~= cs@);
            if a < b {
                push_str(&mut out, " ");
                let t = copy_range(&cs, a, b);
                extend_chars(&mut out, &t);
            }
        },
        None => {},
    }
    out
}

/// The system prompt for a turn.
pub fn system_prompt(extra: Option<&str>, remember: bool) -> (p: String)
    ensures
        p@ == system_spec(opt_view(extra), remember),
{
    let mut out = persona_chars(extra);
    if remember {
        push_str(&mut out, MEMORY_PROTOCOL);
    }
    string_of(&out)
}

// ---------------------------------------------------------------------------
// The chat request and the pi prompt line.
// ---------------------------------------------------------------------------

/// Earlier pages as prior user/assistant turns.
pub open spec fn history_json(h: Seq<(Seq<char>, Seq<char>)>) -> Seq<char>
    decreases h.len(),
{
    if h.len() == 0 {
        Seq::empty()
    } else {
        history_json(h.drop_last()) + "{\"role\":\"user\",\"content\":"@ + quoted(
            "(an earlier page) "@ + h.last().0,
        ) + "},{\"role\":\"assistant\",\"content\":"@ + quoted(h.last().1) + "},"@
    }
}

/// One earlier page as a user turn, `(an earlier page) ` before its
/// transcription, followed by the reply as an assistant turn.
pub open spec fn turn_json(p: (Seq<char>, Seq<char>)) -> Seq<char> {
    "{\"role\":\"user\",\"content\":"@ + quoted("(an earlier page) "@ + p.0)
        + "},{\"role\":\"assistant\",\"content\":"@ + quoted(p.1) + "},"@
}

proof fn lemma_history_concat(a: Seq<(Seq<char>, Seq<char>)>, b: Seq<(Seq<char>, Seq<char>)>)
    ensures
        history_json(a + b) == history_json(a) + history_json(b),
    decreases b.len(),
{
    if b.len() == 0 {
        assert(a + b =~= a);
        assert(history_json(a) + history_json(b) =~= history_json(a));
    } else {
        lemma_history_concat(a, b.drop_last());
        assert((a + b).drop_last() =~= a + b.drop_last());
        assert((a + b).last() == b.last());
        assert(history_json(a + b) =~= history_json(a) + history_json(b));
    }
}

/// Law: the earlier pages ride along in the order of the history, oldest
/// first: the request's history is the history before page `i`, then page
/// `i` as a user turn and its reply as an assistant turn, then the history
/// after it.
pub proof fn lemma_history_in_order(h: Seq<(Seq<char>, Seq<char>)>, i: int)
    requires
        0 <= i < h.len(),
    ensures
        history_json(h) == history_json(h.take(i)) + turn_json(h[i]) + history_json(h.skip(i + 1)),
{
    let one = seq![h[i]];
    assert(h =~= h.take(i) + one + h.skip(i + 1));
    lemma_history_concat(h.take(i) + one, h.skip(i + 1));
    lemma_history_concat(h.take(i), one);
    assert(one.drop_last() =~= Seq::<(Seq<char>, Seq<char>)>::empty());
    assert(history_json(one.drop_last()) =~= Seq::<char>::empty());
    assert(one.last() == h[i]);
    assert(history_json(one) =~= turn_json(h[i]));
}

pub open spec fn reasoning_json(r: Option<Seq<char>>) -> Seq<char> {
    match r {
        Some(v) => "\"reasoning_effort\":"@ + quoted(v) + ","@,
        None => Seq::empty(),
    }
}

/// The streaming chat-completions request body.
pub open spec fn chat_body(
    model: Seq<char>,
    cap_field: Seq<char>,
    max_tokens: nat,
    reasoning: Option<Seq<char>>,
    system: Seq<char>,
    history: Seq<(Seq<char>, Seq<char>)>,
    user_text: Seq<char>,
    img: Seq<char>,
) -> Seq<char> {
    "{\"model\":"@ + quoted(model) + ",\"stream\":true,\""@ + cap_field + "\":"@ + dec_digits(
        max_tokens,
    ) + ","@ + reasoning_json(reasoning) + "\"messages\":["@
        + "{\"role\":\"system\",\"content\":"@ + quoted(system) + "},"@ + history_json(history)
        + "{\"role\":\"user\",\"content\":["@ + "{\"type\":\"text\",\"text\":"@ + quoted(
        user_text,
    ) + "},"@ + "{\"type\":\"image_url\",\"image_url\":{\"url\":\"data:image/png;base64,"@ + img
        + "\"}}"@ + "]}]}"@
}

fn push_quoted(out: &mut Vec<char>, s: &str)
    ensures
        final(out)@ == old(out)@ + quoted(s@),
{
    let q = json_quote(s);
    push_str(out, q.as_str());
}

fn history_exec(h: &Vec<(String, String)>, out: &mut Vec<char>)
    ensures
        final(out)@ == old(out)@ + history_json(pairs_view(h@)),
{
    let ghost o = out@;
    let ghost hv = pairs_view(h@);
    let mut i: usize = 0;
    assert(hv.take(0) =~= Seq::<(Seq<char>, Seq<char>)>::empty());
    while i < h.len()
        invariant
            i <= h@.len(),
            hv == pairs_view(h@),
            out@ == o + history_json(hv.take(i as int)),
        decreases h@.len() - i,
    {
        let ghost before = out@;
        push_str(out, "{\"role\":\"user\",\"content\":");
        let mut earlier = chars_of("(an earlier page) ");
        let t = chars_of(h[i].0.as_str());
        extend_chars(&mut earlier, &t);
        let es = string_of(&earlier);
        push_quoted(out, es.as_str());
        push_str(out, "},{\"role\":\"assistant\",\"content\":");
        push_quoted(out, h[i].1.as_str());
        push_str(out, "},");
        proof {
            let tk = hv.take(i + 1);
            assert(tk.drop_last() =~= hv.take(i as int));
            assert(tk.last() == (h@[i as int].0@, h@[i as int].1@));
            assert(out@ =~= o + history_json(tk));
        }
        i = i + 1;
    }
    assert(hv.take(h@.len() as int) =~= hv);
}

pub open spec fn opt_string_view(o: Option<String>) -> Option<Seq<char>> {
    match o {
        Some(s) => Some(s@),
        None => None,
    }
}

/// Which spirit answers: an OpenAI-compatible endpoint with a key, a local
/// Ollama server (no key), or the resident pi process.
#[derive(Debug, Clone, Copy, PartialEq, Eq, Structural)]
pub enum Backend {
    Http,
    Ollama,
    Pi,
}

/// Where a local Ollama server listens, and the model it runs, unless set.
pub const OLLAMA_BASE: &'static str = "http://localhost:11434/v1";
pub const OLLAMA_MODEL: &'static str = "qwen2.5vl:7b";

/// The backend for the settings present: HTTP when `RIDDLE_OPENAI_KEY` is
/// set, else Ollama when any `RIDDLE_OLLAMA_*` setting is, else pi.
pub fn choose_backend(openai_key: bool, ollama_setting: bool) -> (b: Backend)
    ensures
        b == (if openai_key {
            Backend::Http
        } else if ollama_setting {
            Backend::Ollama
        } else {
            Backend::Pi
        }),
{
    if openai_key {
        Backend::Http
    } else if ollama_setting {
        Backend::Ollama
    } else {
        Backend::Pi
    }
}

/// Any OpenAI-compatible chat backend: where to send a turn and how.
pub struct HttpOracle {
    /// The API base URL, without a trailing slash.
    pub base: String,
    pub key: String,
    pub model: String,
    pub max_tokens: u32,
    /// The `reasoning_effort` value, sent only when set.
    pub reasoning: Option<String>,
    pub remember: bool,
}

/// `s` without its trailing `/` characters.
pub open spec fn trim_slashes(s: Seq<char>) -> Seq<char>
    decreases s.len(),
{
    if s.len() > 0 && s.last() == '/' {
        trim_slashes(s.drop_last())
    } else {
        s
    }
}

/// The token cap: the setting when it reads as a `u32`, else 2000.
pub open spec fn max_tokens_spec(setting: Option<Seq<char>>) -> nat {
    match setting {
        Some(v) => match parse_unsigned(v) {
            Some(n) => if n <= u32::MAX {
                n
            } else {
                2000
            },
            None => 2000,
        },
        None => 2000,
    }
}

impl HttpOracle {
    /// The backend for the given settings: `base` defaults to OpenAI's API
    /// and loses its trailing slashes, `model` defaults to `gpt-4o-mini`,
    /// and `max_tokens` is the setting when it reads as a number, else 2000.
    pub fn new(
        key: String,
        base: Option<String>,
        model: Option<String>,
        max_tokens: Option<String>,
        reasoning: Option<String>,
        remember: bool,
    ) -> (o: Self)
        ensures
            o.key@ == key@,
            o.base@ == trim_slashes(
                match base {
                    Some(b) => b@,
                    None => "https://api.openai.com/v1"@,
                },
            ),
            o.model@ == (match model {
                Some(m) => m@,
                None => "gpt-4o-mini"@,
            }),
            o.max_tokens as nat == max_tokens_spec(opt_string_view(max_tokens)),
            opt_string_view(o.reasoning) == opt_string_view(reasoning),
            o.remember == remember,
    {
        let b = match base {
            Some(b) => chars_of(b.as_str()),
            None => chars_of("https://api.openai.com/v1"),
        };
        let mut end = b.len();
        assert(b@.subrange(0, b@.len() as int) =~= b@);
        while end > 0 && b[end - 1] == '/'
            invariant
                end <= b@.len(),
                trim_slashes(b@) == trim_slashes(b@.subrange(0, end as int)),
            decreases end,
        {
            proof {
                assert(b@.subrange(0, end as int).drop_last() =~= b@.subrange(0, end - 1));
            }
            end = end - 1;
        }
        let base_v = copy_range(&b, 0, end);
        assert(trim_slashes(b@.subrange(0, end as int)) == b@.subrange(0, end as int));
        let model_s = match model {
            Some(m) => m,
            None => "gpt-4o-mini".to_string(),
        };
        let cap: u32 = match &max_tokens {
            Some(v) => {
                let cs = chars_of(v.as_str());
                match parse_u64(&cs, 0, cs.len()) {
                    Some(n) => {
                        assert(cs@.subrange(0, cs@.len() as int) =~= cs@);
                        if n <= 4294967295 {
                            n as u32
                        } else {
                            2000
                        }
                    },
                    None => {
                        assert(cs@.subrange(0, cs@.len() as int) =~= cs@);
                        2000
                    },
                }
            },
            None => 2000,
        };
        HttpOracle { base: string_of(&base_v), key, model: model_s, max_tokens: cap, reasoning, remember }
    }

    /// The streaming chat request for a turn: the system prompt (persona
    /// plus `persona_extra`, and the memory protocol when remembering), the
    /// earlier pages, the turn text and the page image (Base64 PNG), with
    /// the token cap sent under `cap_field`.
    pub fn request_body(
        &self,
        ctx: &TurnContext,
        persona_extra: Option<&str>,
        img: &str,
        cap_field: &str,
    ) -> (body: String)
        ensures
            body@ == chat_body(
                self.model@,
                cap_field@,
                self.max_tokens as nat,
                opt_string_view(self.reasoning),
                system_spec(opt_view(persona_extra), self.remember),
                pairs_view(ctx.history@),
                turn_text_spec(strings_view(ctx.catalog_lines@)),
                img@,
            ),
    {
        let system = system_prompt(persona_extra, self.remember);
        let user_text = turn_text(ctx);
        let mut out: Vec<char> = Vec::new();
        push_str(&mut out, "{\"model\":");
        push_quoted(&mut out, self.model.as_str());
        push_str(&mut out, ",\"stream\":true,\"");
        push_str(&mut out, cap_field);
        push_str(&mut out, "\":");
        let digits = fmt_u64(self.max_tokens as u64);
        extend_chars(&mut out, &digits);
        push_str(&mut out, ",");
        match &self.reasoning {
            Some(r) => {
                push_str(&mut out, "\"reasoning_effort\":");
                push_quoted(&mut out, r.as_str());
                push_str(&mut out, ",");
            },
            None => {},
        }
        push_str(&mut out, "\"messages\":[");
        push_str(&mut out, "{\"role\":\"system\",\"content\":");
        push_quoted(&mut out, system.as_str());
        push_str(&mut out, "},");
        history_exec(&ctx.history, &mut out);
        push_str(&mut out, "{\"role\":\"user\",\"content\":[");
        push_str(&mut out, "{\"type\":\"text\",\"text\":");
        push_quoted(&mut out, user_text.as_str());
        push_str(&mut out, "},");
        push_str(&mut out, "{\"type\":\"image_url\",\"image_url\":{\"url\":\"data:image/png;base64,");
        push_str(&mut out, img);
        push_str(&mut out, "\"}}");
        push_str(&mut out, "]}]}");
        assert(out@ =~= chat_body(
            self.model@,
            cap_field@,
            self.max_tokens as nat,
            opt_string_view(self.reasoning),
            system_spec(opt_view(persona_extra), self.remember),
            pairs_view(ctx.history@),
            turn_text_spec(strings_view(ctx.catalog_lines@)),
            img@,
        ));
        string_of(&out)
    }
}

/// The pi RPC prompt command for a turn (one JSON line).
pub open spec fn pi_prompt_spec(text: Seq<char>, img: Seq<char>) -> Seq<char> {
    "{\"type\":\"prompt\",\"message\":"@ + quoted(text)
        + ",\"images\":[{\"type\":\"image\",\"data\":\""@ + img
        + "\",\"mimeType\":\"image/png\"}]}\n"@
}

/// The pi RPC prompt command for a turn: only the catalog rides along,
/// since pi keeps its own conversation.
pub fn pi_prompt_line(ctx: &TurnContext, img: &str) -> (line: String)
    ensures
        line@ == pi_prompt_spec(turn_text_spec(strings_view(ctx.catalog_lines@)), img@),
{
    let text = turn_text(ctx);
    let mut out: Vec<char> = Vec::new();
    push_str(&mut out, "{\"type\":\"prompt\",\"message\":");
    push_quoted(&mut out, text.as_str());
    push_str(&mut out, ",\"images\":[{\"type\":\"image\",\"data\":\"");
    push_str(&mut out, img);
    push_str(&mut out, "\",\"mimeType\":\"image/png\"}]}\n");
    assert(out@ =~= pi_prompt_spec(turn_text_spec(strings_view(ctx.catalog_lines@)), img@));
    string_of(&out)
}

// ---------------------------------------------------------------------------
// Replies: HTTP status, SSE lines, pi event lines.
// ---------------------------------------------------------------------------

/// A 400 whose detail names `max_completion_tokens`: the endpoint wants
/// the cap under that field, so the request is sent once more.
pub open spec fn wants_completion_tokens(code: u16, detail: Seq<char>) -> bool {
    code == 400 && find_seq(detail, "max_completion_tokens"@) is Some
}

pub fn should_retry_with_completion_tokens(code: u16, detail: &str) -> (b: bool)
    ensures
        b == wants_completion_tokens(code, detail@),
{
    if code != 400 {
        return false;
    }
    let cs = chars_of(detail);
    let pat = chars_of("max_completion_tokens");
    crate::text::find_seq_exec(&cs, &pat, 0).is_some()
}

/// The error handed to the diary for a failed HTTP status.
pub open spec fn http_error_spec(code: u16, detail: Seq<char>) -> Seq<char> {
    "http "@ + dec_digits(code as nat) + ": "@ + trim(detail)
}

pub fn http_error_message(code: u16, detail: &str) -> (m: String)
    ensures
        m@ == http_error_spec(code, detail@),
{
    let mut out: Vec<char> = Vec::new();
    push_str(&mut out, "http ");
    let d = fmt_u64(code as u64);
    extend_chars(&mut out, &d);
    push_str(&mut out, ": ");
    let cs = chars_of(detail);
    let (a, b) = trim_bounds(&cs, 0, cs.len());
    assert(cs@.subrange(0, cs@.len() as int) =~= cs@);
    let t = copy_range(&cs, a, b);
    extend_chars(&mut out, &t);
    string_of(&out)
}

pub open spec fn data_prefix() -> Seq<char> {
    seq!['d', 'a', 't', 'a', ':']
}

pub open spec fn done_marker() -> Seq<char> {
    seq!['[', 'D', 'O', 'N', 'E', ']']
}

/// The payload of an SSE line: the trimmed text after `data:` on a
/// trimmed line, or `None` for any other line.
pub open spec fn sse_payload(line: Seq<char>) -> Option<Seq<char>> {
    let t = trim(line);
    if crate::text::starts_with(t, data_prefix()) {
        Some(trim(t.skip(5)))
    } else {
        None
    }
}

/// What one SSE line asks of the reader.
pub enum SseStep {
    /// `data: [DONE]`: the stream is over.
    Done,
    /// Events to hand to the diary (possibly none).
    Events(Vec<Result<Event, String>>),
}

/// One streamed chat reply: the accumulated text and its parser.
pub struct SseReply {
    parser: StreamParser,
    acc: Vec<char>,
}

pub struct SseReplyV {
    pub parser: crate::parser::ParserState,
    pub acc: Seq<char>,
}

impl View for SseReply {
    type V = SseReplyV;

    closed spec fn view(&self) -> SseReplyV {
        SseReplyV { parser: self.parser@, acc: self.acc@ }
    }
}

impl SseReply {
    /// The reply's parser state accepts the text accumulated so far.
    pub open spec fn wf(&self) -> bool {
        ready(self@.parser, self@.acc)
    }

    pub fn new(catalog_ids: Vec<u64>) -> (r: Self)
        ensures
            r.wf(),
            r@.acc == Seq::<char>::empty(),
            r@.parser == (crate::parser::ParserState {
                delivered: 0,
                sentinel: None,
                route_checked: false,
                emitted_any: false,
                catalog_ids: catalog_ids@,
                seen: Seq::empty(),
            }),
    {
        let r = SseReply { parser: StreamParser::new(catalog_ids), acc: Vec::new() };
        proof {
            crate::text::lemma_first_at(0, crate::text::is_char_at(Seq::<char>::empty(), crate::parser::SENTINEL), 0);
            assert(Seq::<char>::empty().subrange(0, 0) =~= Seq::<char>::empty());
        }
        r
    }

    /// Handles one line of the SSE stream: `data: [DONE]` ends it; a
    /// `data:` object with non-empty delta content extends the reply text
    /// and advances the parser over it; anything else is skipped.
    #[verifier::rlimit(40)]
    pub fn feed_line(&mut self, line: &str) -> (step: SseStep)
        requires
            old(self).wf(),
        ensures
            final(self).wf(),
            match sse_payload(line@) {
                Some(d) => if d == done_marker() {
                    step is Done && final(self)@ == old(self)@
                } else {
                    match delta_content(d) {
                        Some(f) => if f.len() > 0 {
                            &&& final(self)@.acc == old(self)@.acc + f
                            &&& step matches SseStep::Events(ev)
                            &&& (final(self)@.parser, outs_view(ev@)) == advance_spec(
                                old(self)@.parser,
                                final(self)@.acc,
                                false,
                            )
                        } else {
                            step matches SseStep::Events(ev) && ev@.len() == 0
                                && final(self)@ == old(self)@
                        },
                        None => step matches SseStep::Events(ev) && ev@.len() == 0
                            && final(self)@ == old(self)@,
                    }
                },
                None => step matches SseStep::Events(ev) && ev@.len() == 0
                    && final(self)@ == old(self)@,
            },
    {
        let cs = chars_of(line);
        let (a, b) = trim_bounds(&cs, 0, cs.len());
        assert(cs@.subrange(0, cs@.len() as int) =~= cs@);
        let ghost t = cs@.subrange(a as int, b as int);
        if b - a < 5 || cs[a] != 'd' || cs[a + 1] != 'a' || cs[a + 2] != 't' || cs[a + 3] != 'a'
            || cs[a + 4] != ':' {
            proof {
                if t.len() >= 5 {
                    assert(t.subrange(0, 5) != data_prefix()) by {
                        let u = t.subrange(0, 5);
                        if cs@[a as int] != 'd' {
                            assert(u[0] != data_prefix()[0]);
                        } else if cs@[a + 1] != 'a' {
                            assert(u[1] != data_prefix()[1]);
                        } else if cs@[a + 2] != 't' {
                            assert(u[2] != data_prefix()[2]);
                        } else if cs@[a + 3] != 'a' {
                            assert(u[3] != data_prefix()[3]);
                        } else {
                            assert(u[4] != data_prefix()[4]);
                        }
                    }
                }
            }
            return SseStep::Events(Vec::new());
        }
        assert(t.subrange(0, 5) =~= data_prefix());
        let (c, d) = trim_bounds(&cs, a + 5, b);
        assert(t.skip(5) =~= cs@.subrange(a + 5, b as int));
        let ghost payload = cs@.subrange(c as int, d as int);
        if d - c == 6 && cs[c] == '[' && cs[c + 1] == 'D' && cs[c + 2] == 'O' && cs[c + 3] == 'N'
            && cs[c + 4] == 'E' && cs[c + 5] == ']' {
            assert(payload =~= done_marker());
            return SseStep::Done;
        }
        proof {
            if payload.len() == 6 {
                assert(payload != done_marker()) by {
                    if cs@[c as int] != '[' {
                        assert(payload[0] != done_marker()[0]);
                    } else if cs@[c + 1] != 'D' {
                        assert(payload[1] != done_marker()[1]);
                    } else if cs@[c + 2] != 'O' {
                        assert(payload[2] != done_marker()[2]);
                    } else if cs@[c + 3] != 'N' {
                        assert(payload[3] != done_marker()[3]);
                    } else if cs@[c + 4] != 'E' {
                        assert(payload[4] != done_marker()[4]);
                    } else {
                        assert(payload[5] != done_marker()[5]);
                    }
                }
            }
        }
        let pv = copy_range(&cs, c, d);
        let ps = string_of(&pv);
        match crate::json::sse_delta_content(ps.as_str()) {
            Some(frag) => {
                let fc = chars_of(frag.as_str());
                if fc.len() == 0 {
                    return SseStep::Events(Vec::new());
                }
                let ghost old_acc = self.acc@;
                proof {
                    crate::parser::lemma_advance_ready(self.parser@, old_acc, false, Seq::empty());
                }
                extend_chars(&mut self.acc, &fc);
                let acc_s = string_of(&self.acc);
                assert(ready(self.parser@, acc_s@)) by {
                    assert(old_acc + Seq::<char>::empty() =~= old_acc);
                    extension_keeps_ready(self.parser@, old_acc, fc@);
                }
                let ev = self.parser.advance(acc_s.as_str(), false);
                proof {
                    crate::parser::lemma_advance_ready(old(self)@.parser, self.acc@, false, Seq::empty());
                    assert(self.acc@ + Seq::<char>::empty() =~= self.acc@);
                }
                SseStep::Events(ev)
            },
            None => SseStep::Events(Vec::new()),
        }
    }

    /// The end of the stream: flushes the tail and the transcription.
    pub fn finish(&mut self) -> (ev: Vec<Result<Event, String>>)
        requires
            old(self).wf(),
        ensures
            final(self)@.acc == old(self)@.acc,
            (final(self)@.parser, outs_view(ev@)) == advance_spec(old(self)@.parser, old(self)@.acc, true),
    {
        let acc_s = string_of(&self.acc);
        self.parser.advance(acc_s.as_str(), true)
    }
}

/// A state from which `full` may be fed may also be fed any extension.
proof fn extension_keeps_ready(st: crate::parser::ParserState, full: Seq<char>, more: Seq<char>)
    requires
        ready(st, full),
    ensures
        ready(st, full + more),
{
    let ext = full + more;
    assert(ext.len() == full.len() + more.len());
    assert(ext.subrange(0, st.seen.len() as int) =~= full.subrange(0, st.seen.len() as int));
    match st.sentinel {
        Some(p) => {
            assert(located(st, full) == Some(p));
            assert(located(st, ext) == Some(p));
        },
        None => {
            crate::text::lemma_first_at(full.len() as int, crate::text::is_char_at(full, crate::parser::SENTINEL), 0);
            let q = crate::text::is_char_at(ext, crate::parser::SENTINEL);
            crate::text::lemma_first_at(ext.len() as int, q, 0);
            match crate::text::find_char(full, crate::parser::SENTINEL) {
                Some(k) => {
                    let pf = crate::text::is_char_at(full, crate::parser::SENTINEL);
                    assert(ext[k] == full[k]);
                    assert forall|j: int| 0 <= j < k implies !#[trigger] q(j) by {
                        assert(ext[j] == full[j]);
                        assert(!pf(j));
                    }
                    crate::text::lemma_first_at_is(ext.len() as int, q, 0, k);
                },
                None => {
                    match crate::text::find_char(ext, crate::parser::SENTINEL) {
                        Some(k) => {
                            if k < full.len() {
                                assert(ext[k] == full[k]);
                                assert(!crate::text::is_char_at(full, crate::parser::SENTINEL)(k));
                            }
                        },
                        None => {},
                    }
                },
            }
        },
    }
}

/// What a pi event line asks of the reader.
pub enum PiFeed {
    /// Not a reply event: nothing to do.
    Nothing,
    /// The reply so far: advance the turn's parser over it.
    Running(String),
    /// The turn is over: advance with `done` over the final text.
    Finished(String),
}

/// Reader of pi's event stream (one JSON object per line): remembers the
/// assistant's running reply text between lines.
pub struct PiReader {
    pub last_text: String,
}

impl PiReader {
    pub fn new() -> (r: Self)
        ensures
            r.last_text@ == Seq::<char>::empty(),
    {
        PiReader { last_text: String::new() }
    }

    /// Handles one line: `message_update` and `message_end` carry the
    /// running reply (kept when the line holds assistant text), `agent_end`
    /// ends the turn and forgets the text; blank and other lines do nothing.
    pub fn on_line(&mut self, line: &str) -> (feed: PiFeed)
        ensures
            ({
                let t = trim(line@);
                let ty = str_field(t, "type"@);
                if t.len() == 0 {
                    feed is Nothing && final(self).last_text@ == old(self).last_text@
                } else if ty == Some("message_update"@) || ty == Some("message_end"@) {
                    &&& final(self).last_text@ == (match assistant_text(t) {
                        Some(x) => x,
                        None => old(self).last_text@,
                    })
                    &&& feed matches PiFeed::Running(x)
                    &&& x@ == final(self).last_text@
                } else if ty == Some("agent_end"@) {
                    &&& feed matches PiFeed::Finished(x)
                    &&& x@ == old(self).last_text@
                    &&& final(self).last_text@ == Seq::<char>::empty()
                } else {
                    feed is Nothing && final(self).last_text@ == old(self).last_text@
                }
            }),
    {
        let cs = chars_of(line);
        let (a, b) = trim_bounds(&cs, 0, cs.len());
        assert(cs@.subrange(0, cs@.len() as int) =~= cs@);
        if a == b {
            return PiFeed::Nothing;
        }
        let tv = copy_range(&cs, a, b);
        let ts = string_of(&tv);
        let ty = crate::json::json_str_field(ts.as_str(), "type");
        let update = "message_update".to_string();
        let end = "message_end".to_string();
        let agent_end = "agent_end".to_string();
        match ty {
            Some(k) => {
                if k == update || k == end {
                    match crate::json::extract_assistant_text(ts.as_str()) {
                        Some(x) => {
                            self.last_text = x;
                        },
                        None => {},
                    }
                    PiFeed::Running(self.last_text.clone())
                } else if k == agent_end {
                    let done_text = self.last_text.clone();
                    self.last_text = String::new();
                    PiFeed::Finished(done_text)
                } else {
                    PiFeed::Nothing
                }
            },
            None => PiFeed::Nothing,
        }
    }
}

} // verus!
