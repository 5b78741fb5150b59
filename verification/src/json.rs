//! The small slice of JSON the diary speaks: quoting strings for requests,
//! reading string fields back out of replies, the streamed SSE deltas, the
//! pi event lines, and Base64 for the page image.

use vstd::prelude::*;
use crate::num::{
    hex_char, hex_char_exec, hex_digit_value, hex_digits_value, hex_value, hex_value_exec,
};
use crate::text::{
    chars_of, copy_range, extend_chars, find_seq, find_seq_exec, find_seq_from, lemma_first_at,
    lemma_first_at_is, occurs_at, occurs_at_fn, string_of,
};

verus! {

broadcast use vstd::string::group_string_axioms;

// ---------------------------------------------------------------------------
// Quoting.
// ---------------------------------------------------------------------------

/// How one character is written inside a JSON string literal.
pub open spec fn quote_char(c: char) -> Seq<char> {
    if c == '"' {
        seq!['\\', '"']
    } else if c == '\\' {
        seq!['\\', '\\']
    } else if c == '\n' {
        seq!['\\', 'n']
    } else if c == '\r' {
        seq!['\\', 'r']
    } else if c == '\t' {
        seq!['\\', 't']
    } else if (c as u32) < 0x20 {
        seq![
            '\\',
            'u',
            '0',
            '0',
            hex_char(((c as u32) / 16) as nat),
            hex_char(((c as u32) % 16) as nat),
        ]
    } else {
        seq![c]
    }
}

/// The escaped characters of `s`, without the surrounding quotes.
pub open spec fn quote_body(s: Seq<char>) -> Seq<char>
    decreases s.len(),
{
    if s.len() == 0 {
        Seq::empty()
    } else {
        quote_body(s.drop_last()) + quote_char(s.last())
    }
}

/// `s` as a JSON string literal.
pub open spec fn quoted(s: Seq<char>) -> Seq<char> {
    seq!['"'] + quote_body(s) + seq!['"']
}

pub proof fn lemma_quote_body_concat(a: Seq<char>, b: Seq<char>)
    ensures
        quote_body(a + b) == quote_body(a) + quote_body(b),
    decreases b.len(),
{
    if b.len() == 0 {
        assert(a + b =~= a);
        assert(quote_body(a) + quote_body(b) =~= quote_body(a));
    } else {
        lemma_quote_body_concat(a, b.drop_last());
        assert((a + b).drop_last() =~= a + b.drop_last());
        assert((a + b).last() == b.last());
        assert(quote_body(a + b) =~= quote_body(a) + quote_body(b.drop_last()) + quote_char(b.last()));
    }
}

/// `quote_body` read from the front.
pub proof fn lemma_quote_body_front(s: Seq<char>)
    requires
        s.len() > 0,
    ensures
        quote_body(s) == quote_char(s[0]) + quote_body(s.drop_first()),
{
    let a = seq![s[0]];
    assert(a + s.drop_first() =~= s);
    lemma_quote_body_concat(a, s.drop_first());
    assert(a.drop_last() =~= Seq::<char>::empty());
    assert(quote_body(a.drop_last()) =~= Seq::<char>::empty());
    assert(a.last() == s[0]);
    assert(quote_body(a) =~= quote_body(a.drop_last()) + quote_char(a.last()));
    assert(quote_body(a) =~= quote_char(s[0]));
}

/// No character below U+0020 appears in `quoted(s)`.
pub open spec fn free_of_controls(t: Seq<char>) -> bool {
    forall|i: int| 0 <= i < t.len() ==> (#[trigger] t[i] as u32) >= 0x20
}

proof fn lemma_hex_char(d: nat)
    requires
        d < 16,
    ensures
        (hex_char(d) as u32) >= 0x30,
        hex_digit_value(hex_char(d)) == Some(d),
{
}

pub proof fn lemma_quote_char_free(c: char)
    ensures
        free_of_controls(quote_char(c)),
{
    if (c as u32) < 0x20 && c != '\n' && c != '\r' && c != '\t' {
        lemma_hex_char(((c as u32) / 16) as nat);
        lemma_hex_char(((c as u32) % 16) as nat);
    }
}

/// Law: a quoted string carries no raw control character.
pub proof fn lemma_quoted_free_of_controls(s: Seq<char>)
    ensures
        free_of_controls(quoted(s)),
    decreases s.len(),
{
    lemma_quote_body_free(s);
    let q = quoted(s);
    assert forall|i: int| 0 <= i < q.len() implies (#[trigger] q[i] as u32) >= 0x20 by {
        if 0 < i < q.len() - 1 {
            assert(q[i] == quote_body(s)[i - 1]);
        }
    }
}

proof fn lemma_quote_body_free(s: Seq<char>)
    ensures
        free_of_controls(quote_body(s)),
    decreases s.len(),
{
    if s.len() > 0 {
        lemma_quote_body_free(s.drop_last());
        lemma_quote_char_free(s.last());
        let a = quote_body(s.drop_last());
        let b = quote_char(s.last());
        assert forall|i: int| 0 <= i < a.len() + b.len() implies (#[trigger] (a + b)[i] as u32)
            >= 0x20 by {
            if i < a.len() {
                assert((a + b)[i] == a[i]);
            } else {
                assert((a + b)[i] == b[i - a.len()]);
            }
        }
    }
}

fn quote_char_exec(out: &mut Vec<char>, c: char)
    ensures
        final(out)@ == old(out)@ + quote_char(c),
{
    let ghost o = out@;
    if c == '"' {
        out.push('\\');
        out.push('"');
    } else if c == '\\' {
        out.push('\\');
        out.push('\\');
    } else if c == '\n' {
        out.push('\\');
        out.push('n');
    } else if c == '\r' {
        out.push('\\');
        out.push('r');
    } else if c == '\t' {
        out.push('\\');
        out.push('t');
    } else if (c as u32) < 0x20 {
        let u = c as u32;
        out.push('\\');
        out.push('u');
        out.push('0');
        out.push('0');
        out.push(hex_char_exec(u / 16));
        out.push(hex_char_exec(u % 16));
    } else {
        out.push(c);
    }
    assert(out@ =~= o + quote_char(c));
}

/// `s` as a JSON string literal: quotes, backslashes, newlines, carriage
/// returns and tabs escaped, and every other C0 control as `\u00XX`.
pub fn json_quote(s: &str) -> (q: String)
    ensures
        q@ == quoted(s@),
{
    let cs = chars_of(s);
    let mut out: Vec<char> = Vec::new();
    out.push('"');
    let mut i: usize = 0;
    while i < cs.len()
        invariant
            i <= cs@.len(),
            out@ == seq!['"'] + quote_body(cs@.take(i as int)),
        decreases cs@.len() - i,
    {
        proof {
            assert(cs@.take(i + 1).drop_last() =~= cs@.take(i as int));
        }
        quote_char_exec(&mut out, cs[i]);
        i = i + 1;
        proof {
            assert(out@ =~= seq!['"'] + quote_body(cs@.take(i as int)));
        }
    }
    out.push('"');
    assert(cs@.take(cs@.len() as int) =~= cs@);
    assert(out@ =~= quoted(s@));
    string_of(&out)
}

// ---------------------------------------------------------------------------
// Reading JSON string contents.
// ---------------------------------------------------------------------------

/// A Unicode scalar value.
pub open spec fn is_scalar(v: nat) -> bool {
    v < 0xd800 || (0xe000 <= v && v < 0x110000)
}

/// The character of a scalar value (std's `char::from_u32`).
/// Trusted: `Some` exactly for scalar values, holding that character.
#[verifier::external_body]
fn char_from_u32(v: u32) -> (r: Option<char>)
    ensures
        r == (if is_scalar(v as nat) {
            Some(v as char)
        } else {
            None::<char>
        }),
{
    char::from_u32(v)
}

/// The character a simple escape `\n` stands for.
pub open spec fn unescape_json(n: char) -> char {
    if n == 'n' {
        '\n'
    } else if n == 't' {
        '\t'
    } else if n == 'r' {
        '\r'
    } else {
        n
    }
}

pub open spec fn min_int(a: int, b: int) -> int {
    if a <= b {
        a
    } else {
        b
    }
}

/// The text of a JSON string whose opening quote has been consumed: read
/// up to the closing quote (or the end), undoing escapes. With `unicode`,
/// `\uXXXX` (up to four following characters) becomes its character, or
/// nothing when that is no scalar value; without it, `\u` reads as `u`.
pub open spec fn decode(s: Seq<char>, unicode: bool) -> Seq<char>
    decreases s.len(),
{
    if s.len() == 0 {
        Seq::empty()
    } else if s[0] == '"' {
        Seq::empty()
    } else if s[0] == '\\' {
        if s.len() == 1 {
            Seq::empty()
        } else if s[1] == 'u' && unicode {
            let k = min_int(6, s.len() as int);
            let ch = match hex_value(s.subrange(2, k)) {
                Some(v) => if is_scalar(v) {
                    seq![v as char]
                } else {
                    Seq::empty()
                },
                None => Seq::empty(),
            };
            ch + decode(s.skip(k), unicode)
        } else {
            seq![unescape_json(s[1])] + decode(s.skip(2), unicode)
        }
    } else {
        seq![s[0]] + decode(s.skip(1), unicode)
    }
}

/// `decode(s[from..])`.
pub fn decode_exec(s: &[char], from: usize, unicode: bool) -> (out: Vec<char>)
    requires
        from <= s@.len(),
    ensures
        out@ == decode(s@.skip(from as int), unicode),
{
    let mut out: Vec<char> = Vec::new();
    let mut i = from;
    let n = s.len();
    while i < n
        invariant
            from <= i <= n == s@.len(),
            out@ + decode(s@.skip(i as int), unicode) == decode(s@.skip(from as int), unicode),
        decreases n - i,
    {
        let ghost t = s@.skip(i as int);
        let c = s[i];
        if c == '"' {
            assert(out@ + Seq::<char>::empty() =~= out@);
            return out;
        } else if c == '\\' {
            if i + 1 == n {
                assert(out@ + Seq::<char>::empty() =~= out@);
                return out;
            }
            let e = s[i + 1];
            if e == 'u' && unicode {
                let k = if n - i < 6 {
                    n
                } else {
                    i + 6
                };
                let ghost ch_s = match hex_value(t.subrange(2, k - i)) {
                    Some(v) => if is_scalar(v) {
                        seq![v as char]
                    } else {
                        Seq::<char>::empty()
                    },
                    None => Seq::<char>::empty(),
                };
                assert(t.subrange(2, k - i) =~= s@.subrange(i + 2, k as int));
                let hv = hex_value_exec(s, i + 2, k);
                let ghost o = out@;
                match hv {
                    Some(v) => {
                        match char_from_u32(v) {
                            Some(ch) => {
                                out.push(ch);
                            },
                            None => {},
                        }
                    },
                    None => {},
                }
                assert(out@ =~= o + ch_s);
                assert(t.skip(k - i) =~= s@.skip(k as int));
                assert(o + decode(t, unicode) =~= out@ + decode(s@.skip(k as int), unicode));
                i = k;
            } else {
                let r = if e == 'n' {
                    '\n'
                } else if e == 't' {
                    '\t'
                } else if e == 'r' {
                    '\r'
                } else {
                    e
                };
                let ghost o = out@;
                out.push(r);
                assert(t.skip(2) =~= s@.skip(i + 2));
                assert(o + decode(t, unicode) =~= out@ + decode(s@.skip(i + 2), unicode));
                i = i + 2;
            }
        } else {
            let ghost o = out@;
            out.push(c);
            assert(t.skip(1) =~= s@.skip(i + 1));
            assert(o + decode(t, unicode) =~= out@ + decode(s@.skip(i + 1), unicode));
            i = i + 1;
        }
    }
    assert(s@.skip(i as int) =~= Seq::<char>::empty());
    assert(out@ + Seq::<char>::empty() =~= out@);
    out
}

proof fn lemma_hex_pair(a: nat, b: nat)
    requires
        a < 2,
        b < 16,
    ensures
        hex_value(seq!['0', '0', hex_char(a), hex_char(b)]) == Some(a * 16 + b),
{
    lemma_hex_char(a);
    lemma_hex_char(b);
    let h = seq!['0', '0', hex_char(a), hex_char(b)];
    let h3 = h.drop_last();
    let h2 = h3.drop_last();
    let h1 = h2.drop_last();
    let h0 = h1.drop_last();
    assert(h3 =~= seq!['0', '0', hex_char(a)]);
    assert(h2 =~= seq!['0', '0']);
    assert(h1 =~= seq!['0']);
    assert(h0 =~= Seq::<char>::empty());
    assert(hex_digits_value(h0) == Some(0nat));
    assert(hex_digits_value(h1) == Some(0nat));
    assert(hex_digits_value(h2) == Some(0nat));
    assert(hex_digits_value(h3) == Some(a));
    assert(hex_digits_value(h) == Some(a * 16 + b));
}

/// Decoding undoes the escaping of one character.
proof fn lemma_decode_quote_char(c: char, y: Seq<char>)
    ensures
        decode(quote_char(c) + y, true) == seq![c] + decode(y, true),
{
    let q = quote_char(c);
    let x = q + y;
    assert(x.skip(q.len() as int) =~= y);
    if c == '"' || c == '\\' || c == '\n' || c == '\r' || c == '\t' {
        assert(x[0] == '\\');
        assert(decode(x, true) =~= seq![c] + decode(y, true));
    } else if (c as u32) < 0x20 {
        let u = c as u32;
        lemma_hex_pair((u / 16) as nat, (u % 16) as nat);
        assert(x.subrange(2, 6) =~= seq!['0', '0', hex_char((u / 16) as nat), hex_char((u % 16) as nat)]);
        assert(hex_value(x.subrange(2, 6)) == Some(u as nat));
        assert(decode(x, true) =~= seq![c] + decode(y, true));
    } else {
        assert(x[0] == c);
        assert(decode(x, true) =~= seq![c] + decode(y, true));
    }
}

/// Law: reading a quoted string back gives the string, whatever follows
/// the closing quote.
pub proof fn lemma_decode_quoted(t: Seq<char>, rest: Seq<char>)
    ensures
        decode(quote_body(t) + seq!['"'] + rest, true) == t,
    decreases t.len(),
{
    let x = quote_body(t) + seq!['"'] + rest;
    if t.len() == 0 {
        assert(quote_body(t) =~= Seq::<char>::empty());
        assert(x[0] == '"');
        assert(decode(x, true) =~= t);
    } else {
        let t1 = t.drop_first();
        lemma_quote_body_front(t);
        let y = quote_body(t1) + seq!['"'] + rest;
        lemma_decode_quoted(t1, rest);
        assert(x =~= quote_char(t[0]) + y);
        lemma_decode_quote_char(t[0], y);
        assert(seq![t[0]] + t1 =~= t);
    }
}

/// A character the simple escapes carry: anything but a control other
/// than newline, carriage return and tab.
pub open spec fn simply_escaped(c: char) -> bool {
    (c as u32) >= 0x20 || c == '\n' || c == '\r' || c == '\t'
}

/// Decoding, with or without `\u` handling, undoes the escaping of a
/// character that needs no `\u` escape.
proof fn lemma_decode_simple_char(c: char, y: Seq<char>, unicode: bool)
    requires
        simply_escaped(c),
    ensures
        decode(quote_char(c) + y, unicode) == seq![c] + decode(y, unicode),
{
    let q = quote_char(c);
    let x = q + y;
    assert(x.skip(q.len() as int) =~= y);
    if c == '"' || c == '\\' || c == '\n' || c == '\r' || c == '\t' {
        assert(x[0] == '\\');
        assert(decode(x, unicode) =~= seq![c] + decode(y, unicode));
    } else {
        assert(x[0] == c);
        assert(decode(x, unicode) =~= seq![c] + decode(y, unicode));
    }
}

/// Law: reading back a quoted string with only the simple escapes undone
/// (no `\u` handling, as for the pi event lines) gives the string, when it
/// holds no control character but newline, carriage return and tab: an
/// escaped quote reads as a quote and the text goes on.
pub proof fn lemma_decode_quoted_plain(t: Seq<char>, rest: Seq<char>)
    requires
        forall|i: int| 0 <= i < t.len() ==> simply_escaped(#[trigger] t[i]),
    ensures
        decode(quote_body(t) + seq!['"'] + rest, false) == t,
    decreases t.len(),
{
    let x = quote_body(t) + seq!['"'] + rest;
    if t.len() == 0 {
        assert(quote_body(t) =~= Seq::<char>::empty());
        assert(x[0] == '"');
        assert(decode(x, false) =~= t);
    } else {
        let t1 = t.drop_first();
        lemma_quote_body_front(t);
        let y = quote_body(t1) + seq!['"'] + rest;
        assert forall|i: int| 0 <= i < t1.len() implies simply_escaped(#[trigger] t1[i]) by {
            assert(t1[i] == t[i + 1]);
        }
        lemma_decode_quoted_plain(t1, rest);
        assert(x =~= quote_char(t[0]) + y);
        assert(simply_escaped(t[0]));
        lemma_decode_simple_char(t[0], y, false);
        assert(seq![t[0]] + t1 =~= t);
    }
}

// ---------------------------------------------------------------------------
// Fields, SSE deltas and pi event lines.
// ---------------------------------------------------------------------------

/// `"key":"` — the text that opens a string field.
pub open spec fn field_open(key: Seq<char>) -> Seq<char> {
    seq!['"'] + key + seq!['"', ':', '"']
}

/// The value of the first string field `key` in `s` (searched as the text
/// `"key":"`), unescaped; `None` when it does not occur.
pub open spec fn str_field(s: Seq<char>, key: Seq<char>) -> Option<Seq<char>> {
    let pat = field_open(key);
    match find_seq(s, pat) {
        Some(k) => Some(decode(s.skip(k + pat.len()), true)),
        None => None,
    }
}

/// Extracts a top-level string field's value (first match; unescaped).
pub fn json_str_field(s: &str, key: &str) -> (r: Option<String>)
    ensures
        match r {
            Some(v) => str_field(s@, key@) == Some(v@),
            None => str_field(s@, key@) is None,
        },
{
    let cs = chars_of(s);
    let ks = chars_of(key);
    let mut pat: Vec<char> = Vec::new();
    pat.push('"');
    extend_chars(&mut pat, &ks);
    pat.push('"');
    pat.push(':');
    pat.push('"');
    assert(pat@ =~= field_open(key@));
    match find_seq_exec(&cs, &pat, 0) {
        Some(k) => {
            proof {
                lemma_first_at(cs@.len() as int, occurs_at_fn(cs@, pat@), 0);
                assert(occurs_at(cs@, pat@, k as int));
            }
            let n = cs.len();
            assert(k + pat@.len() <= n);
            let start = k + pat.len();
            let v = decode_exec(&cs, start, true);
            Some(string_of(&v))
        },
        None => None,
    }
}

/// Law: a field written as `"key":` followed by `json_quote(v)` reads back as `v`.
pub proof fn lemma_str_field_quoted(key: Seq<char>, v: Seq<char>, rest: Seq<char>)
    ensures
        str_field(field_open(key).drop_last() + quoted(v) + rest, key) == Some(v),
{
    let pat = field_open(key);
    let s = pat.drop_last() + quoted(v) + rest;
    assert(s.subrange(0, pat.len() as int) =~= pat);
    lemma_first_at_is(s.len() as int, occurs_at_fn(s, pat), 0, 0);
    assert(s.skip(pat.len() as int) =~= quote_body(v) + seq!['"'] + rest);
    lemma_decode_quoted(v, rest);
}

/// `choices[0].delta.content` of one SSE `data:` object: the first
/// `content` string field after the first `"delta"`.
pub open spec fn delta_content(s: Seq<char>) -> Option<Seq<char>> {
    match find_seq(s, "\"delta\""@) {
        Some(d) => str_field(s.skip(d), "content"@),
        None => None,
    }
}

/// Pulls `choices[0].delta.content` out of one SSE `data:` JSON object.
pub fn sse_delta_content(s: &str) -> (r: Option<String>)
    ensures
        match r {
            Some(v) => delta_content(s@) == Some(v@),
            None => delta_content(s@) is None,
        },
{
    let cs = chars_of(s);
    let marker = chars_of("\"delta\"");
    match find_seq_exec(&cs, &marker, 0) {
        Some(d) => {
            proof {
                lemma_first_at(cs@.len() as int, occurs_at_fn(cs@, marker@), 0);
            }
            let rest = copy_range(&cs, d, cs.len());
            assert(rest@ =~= s@.skip(d as int));
            let rest_s = string_of(&rest);
            json_str_field(rest_s.as_str(), "content")
        },
        None => None,
    }
}

/// The decoded `"text":"…"` strings of `tail` from index `idx` on, each
/// search resuming at the start of the text just read.
pub open spec fn texts_from(tail: Seq<char>, idx: int) -> Seq<char>
    decreases tail.len() - idx,
{
    let needle = "\"text\":\""@;
    if idx < 0 || idx >= tail.len() {
        Seq::empty()
    } else {
        match find_seq_from(tail, needle, idx) {
            Some(k) => {
                let start = k + needle.len();
                if idx < start <= tail.len() {
                    decode(tail.skip(start), false) + texts_from(tail, start)
                } else {
                    Seq::empty()
                }
            },
            None => Seq::empty(),
        }
    }
}

/// The assistant reply text of a pi event line: `None` unless the line
/// holds `"role":"assistant"`; otherwise the concatenated `"text"` strings
/// between that marker and the next `"role":"` marker, `None` when empty.
pub open spec fn assistant_text(s: Seq<char>) -> Option<Seq<char>> {
    let role = "\"role\":\"assistant\""@;
    match find_seq(s, role) {
        None => None,
        Some(r) => {
            let after = s.skip(r + role.len());
            let tail = match find_seq(after, "\"role\":\""@) {
                Some(p) => after.take(p),
                None => after,
            };
            let out = texts_from(tail, 0);
            if out.len() == 0 {
                None
            } else {
                Some(out)
            }
        },
    }
}

/// Pulls the assistant reply text out of a pi event line.
pub fn extract_assistant_text(s: &str) -> (r: Option<String>)
    ensures
        match r {
            Some(v) => assistant_text(s@) == Some(v@),
            None => assistant_text(s@) is None,
        },
{
    let cs = chars_of(s);
    let role = chars_of("\"role\":\"assistant\"");
    let role_any = chars_of("\"role\":\"");
    let needle = chars_of("\"text\":\"");
    let found = find_seq_exec(&cs, &role, 0);
    if found.is_none() {
        return None;
    }
    let r = found.unwrap();
    proof {
        lemma_first_at(cs@.len() as int, occurs_at_fn(cs@, role@), 0);
        reveal_strlit("\"text\":\"");
        assert(occurs_at(cs@, role@, r as int));
    }
    let n = cs.len();
    assert(r + role@.len() <= n);
    let after = copy_range(&cs, r + role.len(), n);
    assert(after@ =~= cs@.skip(r + role@.len()));
    let tail = match find_seq_exec(&after, &role_any, 0) {
        Some(p) => {
            proof {
                lemma_first_at(after@.len() as int, occurs_at_fn(after@, role_any@), 0);
            }
            let t = copy_range(&after, 0, p);
            assert(t@ =~= after@.take(p as int));
            t
        },
        None => after,
    };
    assert(tail@ == (match find_seq(after@, "\"role\":\""@) {
        Some(p) => after@.take(p),
        None => after@,
    }));
    let mut out: Vec<char> = Vec::new();
    let mut idx: usize = 0;
    assert(out@ + texts_from(tail@, 0) =~= texts_from(tail@, 0));
    while idx < tail.len()
        invariant
            idx <= tail@.len(),
            needle@ == "\"text\":\""@,
            needle@.len() == 8,
            out@ + texts_from(tail@, idx as int) == texts_from(tail@, 0),
        ensures
            out@ == texts_from(tail@, 0),
        decreases tail@.len() - idx,
    {
        proof {
            assert(out@ + Seq::<char>::empty() =~= out@);
        }
        match find_seq_exec(&tail, &needle, idx) {
            Some(k) => {
                proof {
                    lemma_first_at(tail@.len() as int, occurs_at_fn(tail@, needle@), idx as int);
                    assert(occurs_at(tail@, needle@, k as int));
                }
                let start = k + needle.len();
                let piece = decode_exec(&tail, start, false);
                let ghost o = out@;
                extend_chars(&mut out, &piece);
                proof {
                    assert(o + texts_from(tail@, idx as int) =~= out@ + texts_from(
                        tail@,
                        start as int,
                    ));
                }
                idx = start;
            },
            None => {
                assert(texts_from(tail@, idx as int) =~= Seq::<char>::empty());
                assert(out@ + Seq::<char>::empty() =~= out@);
                break;
            },
        }
    }
    if out.len() == 0 {
        None
    } else {
        Some(string_of(&out))
    }
}

// ---------------------------------------------------------------------------
// Base64.
// ---------------------------------------------------------------------------

/// The Base64 digit of `v < 64` (standard alphabet).
pub open spec fn b64_char(v: nat) -> char {
    if v < 26 {
        ((v + 65) as u32) as char
    } else if v < 52 {
        ((v + 71) as u32) as char
    } else if v < 62 {
        ((v - 4) as u32) as char
    } else if v == 62 {
        '+'
    } else {
        '/'
    }
}

fn b64_char_exec(v: u8) -> (c: char)
    requires
        v < 64,
    ensures
        c == b64_char(v as nat),
{
    if v < 26 {
        (v + 65) as char
    } else if v < 52 {
        (v + 71) as char
    } else if v < 62 {
        (v - 4) as char
    } else if v == 62 {
        '+'
    } else {
        '/'
    }
}

/// The four Base64 characters of a group of one to three bytes, padded
/// with `=`.
pub open spec fn b64_group(c: Seq<u8>) -> Seq<char> {
    let b0 = c[0] as nat;
    let b1 = if c.len() > 1 {
        c[1] as nat
    } else {
        0
    };
    let b2 = if c.len() > 2 {
        c[2] as nat
    } else {
        0
    };
    seq![
        b64_char(b0 / 4),
        b64_char((b0 % 4) * 16 + b1 / 16),
        if c.len() > 1 {
            b64_char((b1 % 16) * 4 + b2 / 64)
        } else {
            '='
        },
        if c.len() > 2 {
            b64_char(b2 % 64)
        } else {
            '='
        },
    ]
}

/// Standard padded Base64 of `d`, group by group.
pub open spec fn base64_of(d: Seq<u8>) -> Seq<char>
    decreases d.len(),
{
    if d.len() == 0 {
        Seq::empty()
    } else {
        let k = min_int(3, d.len() as int);
        b64_group(d.take(k)) + base64_of(d.skip(k))
    }
}

/// Standard padded Base64.
pub fn base64(data: &[u8]) -> (s: String)
    ensures
        s@ == base64_of(data@),
{
    let mut out: Vec<char> = Vec::new();
    let n = data.len();
    let mut i: usize = 0;
    assert(data@.skip(0) =~= data@);
    assert(out@ + base64_of(data@) =~= base64_of(data@));
    while i < n
        invariant
            i <= n == data@.len(),
            out@ + base64_of(data@.skip(i as int)) == base64_of(data@),
        decreases n - i,
    {
        let ghost t = data@.skip(i as int);
        let len = if n - i < 3 {
            n - i
        } else {
            3
        };
        let b0 = data[i];
        let b1 = if len > 1 {
            data[i + 1]
        } else {
            0
        };
        let b2 = if len > 2 {
            data[i + 2]
        } else {
            0
        };
        let ghost o = out@;
        out.push(b64_char_exec(b0 / 4));
        out.push(b64_char_exec((b0 % 4) * 16 + b1 / 16));
        if len > 1 {
            out.push(b64_char_exec((b1 % 16) * 4 + b2 / 64));
        } else {
            out.push('=');
        }
        if len > 2 {
            out.push(b64_char_exec(b2 % 64));
        } else {
            out.push('=');
        }
        proof {
            let g = t.take(len as int);
            assert(out@ =~= o + b64_group(g));
            assert(t.skip(len as int) =~= data@.skip(i + len));
        }
        i = i + len;
    }
    assert(data@.skip(n as int) =~= Seq::<u8>::empty());
    assert(out@ + Seq::<char>::empty() =~= out@);
    string_of(&out)
}

/// Law: Base64 turns every three bytes (or the last one or two) into four characters.
pub proof fn lemma_base64_len(d: Seq<u8>)
    ensures
        base64_of(d).len() == 4 * ((d.len() + 2) / 3),
    decreases d.len(),
{
    if d.len() > 0 {
        let k = min_int(3, d.len() as int);
        lemma_base64_len(d.skip(k));
    }
}

/// The value of a Base64 digit of the standard alphabet (`A`–`Z`, `a`–`z`,
/// `0`–`9`, `+`, `/`), or -1 for any other character.
pub open spec fn b64_value(c: char) -> int {
    let u = c as u32 as int;
    if 65 <= u <= 90 {
        u - 65
    } else if 97 <= u <= 122 {
        u - 71
    } else if 48 <= u <= 57 {
        u + 4
    } else if c == '+' {
        62
    } else if c == '/' {
        63
    } else {
        -1
    }
}

/// The bytes of one Base64 group of four characters (`=` for padding).
pub open spec fn unb64_group(g: Seq<char>) -> Seq<u8> {
    let v0 = b64_value(g[0]);
    let v1 = b64_value(g[1]);
    let v2 = b64_value(g[2]);
    let v3 = b64_value(g[3]);
    let x0 = (v0 * 4 + v1 / 16) as u8;
    let x1 = ((v1 % 16) * 16 + v2 / 4) as u8;
    let x2 = ((v2 % 4) * 64 + v3) as u8;
    if g[2] == '=' {
        seq![x0]
    } else if g[3] == '=' {
        seq![x0, x1]
    } else {
        seq![x0, x1, x2]
    }
}

/// Base64 decoding, four characters at a time.
pub open spec fn unbase64(s: Seq<char>) -> Seq<u8>
    decreases s.len(),
{
    if s.len() < 4 {
        Seq::empty()
    } else {
        unb64_group(s.take(4)) + unbase64(s.skip(4))
    }
}

/// Law: each 6-bit value has its own Base64 digit of the standard
/// alphabet, which reads back as that value (so 62 is `+` and 63 is `/`);
/// no digit is the padding `=`.
pub proof fn lemma_b64_char_inverse(v: nat)
    requires
        v < 64,
    ensures
        b64_value(b64_char(v)) == v,
        b64_char(v) != '=',
{
}

proof fn lemma_b64_bytes(b0: nat, b1: nat, b2: nat)
    requires
        b0 < 256,
        b1 < 256,
        b2 < 256,
    ensures
        (b0 / 4) * 4 + ((b0 % 4) * 16 + b1 / 16) / 16 == b0,
        (((b0 % 4) * 16 + b1 / 16) % 16) * 16 + ((b1 % 16) * 4 + b2 / 64) / 4 == b1,
        (((b1 % 16) * 4 + b2 / 64) % 4) * 64 + b2 % 64 == b2,
        b0 / 4 < 64,
        (b0 % 4) * 16 + b1 / 16 < 64,
        (b1 % 16) * 4 + b2 / 64 < 64,
        b2 % 64 < 64,
{
    assert((b0 / 4) * 4 + b0 % 4 == b0) by (nonlinear_arith);
    assert(((b0 % 4) * 16 + b1 / 16) / 16 == b0 % 4 && ((b0 % 4) * 16 + b1 / 16) % 16 == b1 / 16)
        by (nonlinear_arith)
        requires
            b1 < 256,
    ;
    assert(((b1 % 16) * 4 + b2 / 64) / 4 == b1 % 16 && ((b1 % 16) * 4 + b2 / 64) % 4 == b2 / 64)
        by (nonlinear_arith)
        requires
            b2 < 256,
    ;
    assert((b1 / 16) * 16 + b1 % 16 == b1) by (nonlinear_arith);
    assert((b2 / 64) * 64 + b2 % 64 == b2) by (nonlinear_arith);
}

proof fn lemma_unb64_group(c: Seq<u8>)
    requires
        1 <= c.len() <= 3,
    ensures
        b64_group(c).len() == 4,
        unb64_group(b64_group(c)) == c,
{
    let b0 = c[0] as nat;
    let b1: nat = if c.len() > 1 { c[1] as nat } else { 0 };
    let b2: nat = if c.len() > 2 { c[2] as nat } else { 0 };
    lemma_b64_bytes(b0, b1, b2);
    lemma_b64_char_inverse(b0 / 4);
    lemma_b64_char_inverse((b0 % 4) * 16 + b1 / 16);
    lemma_b64_char_inverse((b1 % 16) * 4 + b2 / 64);
    lemma_b64_char_inverse(b2 % 64);
    let g = b64_group(c);
    let r = unb64_group(g);
    if c.len() == 1 {
        assert(r =~= c);
    } else if c.len() == 2 {
        assert(r =~= c);
    } else {
        assert(r =~= c);
    }
}

/// Law: Base64 is undone by Base64 decoding: decoding `base64_of(d)`
/// gives back `d`.
pub proof fn lemma_base64_round_trip(d: Seq<u8>)
    ensures
        unbase64(base64_of(d)) == d,
    decreases d.len(),
{
    if d.len() > 0 {
        let k = min_int(3, d.len() as int);
        let g = b64_group(d.take(k));
        let rest = base64_of(d.skip(k));
        lemma_unb64_group(d.take(k));
        lemma_base64_round_trip(d.skip(k));
        let s = g + rest;
        assert(s.take(4) =~= g);
        assert(s.skip(4) =~= rest);
        assert(d.take(k) + d.skip(k) =~= d);
    } else {
        assert(base64_of(d) =~= Seq::<char>::empty());
        assert(unbase64(base64_of(d)) =~= d);
    }
}

} // verus!
