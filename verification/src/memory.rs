//! The diary's memory: every finished turn (the transcription of the
//! writer's words and Tom's reply) kept as one line of an index file,
//! pruned to the newest pages, and offered back as a numbered catalog.

use vstd::prelude::*;
use crate::num::{dec_digits, fmt_u64, parse_u64, parse_unsigned};
use crate::calendar::{
    civil_spec, day_suffix, local_secs, month_name, spoken_date, spoken_date_spec, time_of_day,
};
use crate::oracle::{pairs_view, strings_view};
use crate::text::{
    char_is_ws, chars_of, collapse_ws, collapse_ws_exec, copy_range, extend_chars, find_char,
    find_char_range, first_at, is_char_at, is_ws, lemma_first_at, lemma_collapse_state,
    lemma_first_at_is, lemma_first_at_none, lines_of, next_line, push_str, string_of, strip_cr,
};

verus! {

broadcast use vstd::string::group_string_axioms;

/// Newest memories the diary keeps. Older pages are forgotten (pruned).
pub const MAX_MEMORIES: usize = 400;

/// One remembered turn.
pub struct Entry {
    /// Unix seconds when the page was committed. Also the strokes filename.
    pub id: u64,
    pub transcript: String,
    pub reply: String,
}

/// An entry as the contracts speak of it.
pub struct EntryV {
    pub id: u64,
    pub transcript: Seq<char>,
    pub reply: Seq<char>,
}

impl View for Entry {
    type V = EntryV;

    open spec fn view(&self) -> EntryV {
        EntryV { id: self.id, transcript: self.transcript@, reply: self.reply@ }
    }
}

pub open spec fn entries_view(v: Seq<Entry>) -> Seq<EntryV> {
    v.map_values(|e: Entry| e@)
}

// ---------------------------------------------------------------------------
// Escaping the index fields.
// ---------------------------------------------------------------------------

/// How one character is written in an index field.
pub open spec fn esc_char(c: char) -> Seq<char> {
    if c == '\\' {
        seq!['\\', '\\']
    } else if c == '\t' {
        seq!['\\', 't']
    } else if c == '\n' {
        seq!['\\', 'n']
    } else {
        seq![c]
    }
}

/// `s` with backslashes, tabs and newlines escaped.
pub open spec fn escape_spec(s: Seq<char>) -> Seq<char>
    decreases s.len(),
{
    if s.len() == 0 {
        Seq::empty()
    } else {
        escape_spec(s.drop_last()) + esc_char(s.last())
    }
}

/// The character an index escape `\x` stands for.
pub open spec fn unesc_char(c: char) -> char {
    if c == 't' {
        '\t'
    } else if c == 'n' {
        '\n'
    } else {
        c
    }
}

/// `s` with escapes undone; a lone trailing backslash is dropped.
pub open spec fn unescape_spec(s: Seq<char>) -> Seq<char>
    decreases s.len(),
{
    if s.len() == 0 {
        Seq::empty()
    } else if s[0] != '\\' {
        seq![s[0]] + unescape_spec(s.skip(1))
    } else if s.len() == 1 {
        Seq::empty()
    } else {
        seq![unesc_char(s[1])] + unescape_spec(s.skip(2))
    }
}

pub proof fn lemma_escape_concat(a: Seq<char>, b: Seq<char>)
    ensures
        escape_spec(a + b) == escape_spec(a) + escape_spec(b),
    decreases b.len(),
{
    if b.len() == 0 {
        assert(a + b =~= a);
        assert(escape_spec(a) + escape_spec(b) =~= escape_spec(a));
    } else {
        lemma_escape_concat(a, b.drop_last());
        assert((a + b).drop_last() =~= a + b.drop_last());
        assert(escape_spec(a + b) =~= escape_spec(a) + escape_spec(b.drop_last()) + esc_char(b.last()));
    }
}

/// Law: unescaping undoes escaping.
pub proof fn lemma_unescape_escape(s: Seq<char>)
    ensures
        unescape_spec(escape_spec(s)) == s,
    decreases s.len(),
{
    if s.len() > 0 {
        let c = s[0];
        let t = s.drop_first();
        assert(seq![c] + t =~= s);
        lemma_escape_concat(seq![c], t);
        let one = seq![c];
        assert(one.drop_last() =~= Seq::<char>::empty());
        assert(escape_spec(one.drop_last()) =~= Seq::<char>::empty());
        assert(one.last() == c);
        assert(escape_spec(one) =~= escape_spec(one.drop_last()) + esc_char(one.last()));
        assert(escape_spec(one) =~= esc_char(c));
        lemma_unescape_escape(t);
        let e = esc_char(c) + escape_spec(t);
        assert(e.skip(esc_char(c).len() as int) =~= escape_spec(t));
        assert(unescape_spec(e) =~= seq![c] + t);
    } else {
        assert(escape_spec(s) =~= Seq::<char>::empty());
    }
}

/// Escaped text holds no tab and no newline.
pub proof fn lemma_escape_plain(s: Seq<char>)
    ensures
        forall|i: int| 0 <= i < escape_spec(s).len() ==> #[trigger] escape_spec(s)[i] != '\t'
            && escape_spec(s)[i] != '\n',
    decreases s.len(),
{
    if s.len() > 0 {
        lemma_escape_plain(s.drop_last());
        let a = escape_spec(s.drop_last());
        let b = esc_char(s.last());
        assert forall|i: int| 0 <= i < (a + b).len() implies #[trigger] (a + b)[i] != '\t' && (a
            + b)[i] != '\n' by {
            if i < a.len() {
                assert((a + b)[i] == a[i]);
            } else {
                assert((a + b)[i] == b[i - a.len()]);
            }
        }
    }
}

fn escape_into(out: &mut Vec<char>, s: &str)
    ensures
        final(out)@ == old(out)@ + escape_spec(s@),
{
    let cs = chars_of(s);
    let ghost o = out@;
    let mut i: usize = 0;
    while i < cs.len()
        invariant
            i <= cs@.len(),
            out@ == o + escape_spec(cs@.take(i as int)),
        decreases cs@.len() - i,
    {
        let c = cs[i];
        if c == '\\' {
            out.push('\\');
            out.push('\\');
        } else if c == '\t' {
            out.push('\\');
            out.push('t');
        } else if c == '\n' {
            out.push('\\');
            out.push('n');
        } else {
            out.push(c);
        }
        proof {
            assert(cs@.take(i + 1).drop_last() =~= cs@.take(i as int));
            assert(out@ =~= o + escape_spec(cs@.take(i + 1)));
        }
        i = i + 1;
    }
    assert(cs@.take(cs@.len() as int) =~= cs@);
}

/// Escapes backslashes, tabs and newlines for an index field.
pub fn escape(s: &str) -> (r: String)
    ensures
        r@ == escape_spec(s@),
{
    let mut out: Vec<char> = Vec::new();
    escape_into(&mut out, s);
    assert(out@ =~= escape_spec(s@));
    string_of(&out)
}

/// `unescape(s[lo..hi])`.
fn unescape_range(s: &[char], lo: usize, hi: usize) -> (out: Vec<char>)
    requires
        lo <= hi <= s@.len(),
    ensures
        out@ == unescape_spec(s@.subrange(lo as int, hi as int)),
{
    let mut out: Vec<char> = Vec::new();
    let mut i = lo;
    assert(out@ + unescape_spec(s@.subrange(lo as int, hi as int)) =~= unescape_spec(
        s@.subrange(lo as int, hi as int),
    ));
    while i < hi
        invariant
            lo <= i <= hi <= s@.len(),
            out@ + unescape_spec(s@.subrange(i as int, hi as int)) == unescape_spec(
                s@.subrange(lo as int, hi as int),
            ),
        decreases hi - i,
    {
        let ghost t = s@.subrange(i as int, hi as int);
        let ghost o = out@;
        let c = s[i];
        if c != '\\' {
            out.push(c);
            assert(t.skip(1) =~= s@.subrange(i + 1, hi as int));
            assert(o + unescape_spec(t) =~= out@ + unescape_spec(s@.subrange(i + 1, hi as int)));
            i = i + 1;
        } else if i + 1 == hi {
            assert(unescape_spec(t) =~= Seq::<char>::empty());
            assert(s@.subrange(hi as int, hi as int) =~= Seq::<char>::empty());
            assert(out@ + unescape_spec(s@.subrange(hi as int, hi as int)) =~= o + unescape_spec(t));
            i = hi;
        } else {
            let n = s[i + 1];
            let r = if n == 't' {
                '\t'
            } else if n == 'n' {
                '\n'
            } else {
                n
            };
            out.push(r);
            assert(t.skip(2) =~= s@.subrange(i + 2, hi as int));
            assert(o + unescape_spec(t) =~= out@ + unescape_spec(s@.subrange(i + 2, hi as int)));
            i = i + 2;
        }
    }
    assert(s@.subrange(i as int, hi as int) =~= Seq::<char>::empty());
    assert(out@ + Seq::<char>::empty() =~= out@);
    out
}

/// Undoes `escape`.
pub fn unescape(s: &str) -> (r: String)
    ensures
        r@ == unescape_spec(s@),
{
    let cs = chars_of(s);
    let v = unescape_range(&cs, 0, cs.len());
    assert(cs@.subrange(0, cs@.len() as int) =~= cs@);
    string_of(&v)
}

// ---------------------------------------------------------------------------
// The index file: one line per memory, `id \t transcript \t reply`.
// ---------------------------------------------------------------------------

/// The index line of an entry, newline included.
pub open spec fn index_line_spec(e: EntryV) -> Seq<char> {
    dec_digits(e.id as nat) + seq!['\t'] + escape_spec(e.transcript) + seq!['\t'] + escape_spec(
        e.reply,
    ) + seq!['\n']
}

/// The whole index file for `es`.
pub open spec fn index_text_spec(es: Seq<EntryV>) -> Seq<char>
    decreases es.len(),
{
    if es.len() == 0 {
        Seq::empty()
    } else {
        index_text_spec(es.drop_last()) + index_line_spec(es.last())
    }
}

fn index_line_into(out: &mut Vec<char>, e: &Entry)
    ensures
        final(out)@ == old(out)@ + index_line_spec(e@),
{
    let ghost o = out@;
    let d = fmt_u64(e.id);
    extend_chars(out, &d);
    out.push('\t');
    escape_into(out, e.transcript.as_str());
    out.push('\t');
    escape_into(out, e.reply.as_str());
    out.push('\n');
    assert(out@ =~= o + index_line_spec(e@));
}

/// The index line of one memory: `id \t transcript \t reply \n`, with
/// the text fields escaped.
pub fn index_line(e: &Entry) -> (l: String)
    ensures
        l@ == index_line_spec(e@),
{
    let mut out: Vec<char> = Vec::new();
    index_line_into(&mut out, e);
    assert(out@ =~= index_line_spec(e@));
    string_of(&out)
}

/// The index file holding `entries`, oldest first.
pub fn index_text(entries: &Vec<Entry>) -> (t: String)
    ensures
        t@ == index_text_spec(entries_view(entries@)),
{
    let ghost ev = entries_view(entries@);
    let mut out: Vec<char> = Vec::new();
    let mut i: usize = 0;
    assert(ev.take(0) =~= Seq::<EntryV>::empty());
    while i < entries.len()
        invariant
            i <= entries@.len(),
            ev == entries_view(entries@),
            out@ == index_text_spec(ev.take(i as int)),
        decreases entries@.len() - i,
    {
        index_line_into(&mut out, &entries[i]);
        proof {
            assert(ev.take(i + 1).drop_last() =~= ev.take(i as int));
            assert(ev.take(i + 1).last() == entries@[i as int]@);
        }
        i = i + 1;
    }
    assert(ev.take(entries@.len() as int) =~= ev);
    string_of(&out)
}

/// One index line read back: the id before the first tab (a decimal that
/// fits a `u64`), the transcript up to the next tab, the reply after it
/// (both unescaped). `None` for a line without two tabs or a bad id.
pub open spec fn parse_entry(line: Seq<char>) -> Option<EntryV> {
    match find_char(line, '\t') {
        None => None,
        Some(i) => {
            let rest = line.skip(i + 1);
            match find_char(rest, '\t') {
                None => None,
                Some(j) => match parse_unsigned(line.take(i)) {
                    Some(id) => if id <= u64::MAX {
                        Some(
                            EntryV {
                                id: id as u64,
                                transcript: unescape_spec(rest.take(j)),
                                reply: unescape_spec(rest.skip(j + 1)),
                            },
                        )
                    } else {
                        None
                    },
                    None => None,
                },
            }
        },
    }
}

/// The entries of the well-formed lines, in order.
pub open spec fn parse_entries(lines: Seq<Seq<char>>) -> Seq<EntryV>
    decreases lines.len(),
{
    if lines.len() == 0 {
        Seq::empty()
    } else {
        (match parse_entry(lines[0]) {
            Some(e) => seq![e],
            None => Seq::empty(),
        }) + parse_entries(lines.drop_first())
    }
}

/// The memories an index file holds.
pub open spec fn parse_index_spec(text: Seq<char>) -> Seq<EntryV> {
    parse_entries(lines_of(text))
}

fn parse_entry_range(s: &[char], lo: usize, hi: usize) -> (r: Option<Entry>)
    requires
        lo <= hi <= s@.len(),
    ensures
        match r {
            Some(e) => parse_entry(s@.subrange(lo as int, hi as int)) == Some(e@),
            None => parse_entry(s@.subrange(lo as int, hi as int)) is None,
        },
{
    let ghost line = s@.subrange(lo as int, hi as int);
    let i = match find_char_range(s, '\t', lo, hi) {
        Some(i) => i,
        None => {
            return None;
        },
    };
    let ghost rest = line.skip(i - lo + 1);
    assert(rest =~= s@.subrange(i + 1, hi as int));
    let j = match find_char_range(s, '\t', i + 1, hi) {
        Some(j) => j,
        None => {
            return None;
        },
    };
    assert(line.take(i - lo) =~= s@.subrange(lo as int, i as int));
    assert(rest.take(j - i - 1) =~= s@.subrange(i + 1, j as int));
    assert(rest.skip(j - i) =~= s@.subrange(j + 1, hi as int));
    let id = match parse_u64(s, lo, i) {
        Some(id) => id,
        None => {
            return None;
        },
    };
    let t = unescape_range(s, i + 1, j);
    let r = unescape_range(s, j + 1, hi);
    let e = Entry { id, transcript: string_of(&t), reply: string_of(&r) };
    assert(parse_entry(line) == Some(e@));
    Some(e)
}

/// The memories an index file holds, oldest first; malformed lines are
/// skipped.
pub fn parse_index(text: &str) -> (es: Vec<Entry>)
    ensures
        entries_view(es@) == parse_index_spec(text@),
{
    let s = chars_of(text);
    let n = s.len();
    let mut out: Vec<Entry> = Vec::new();
    let mut pos: usize = 0;
    assert(s@.skip(0) =~= s@);
    assert(entries_view(out@) + parse_entries(lines_of(s@.skip(0))) =~= parse_index_spec(text@));
    while pos < n
        invariant
            pos <= n == s@.len(),
            entries_view(out@) + parse_entries(lines_of(s@.skip(pos as int))) == parse_index_spec(
                text@,
            ),
        decreases n - pos,
    {
        let (a, b, next) = next_line(&s, pos);
        let ghost ls = lines_of(s@.skip(pos as int));
        let ghost o = entries_view(out@);
        assert(ls.drop_first() =~= lines_of(s@.skip(next as int)));
        assert(ls[0] == s@.subrange(a as int, b as int));
        match parse_entry_range(&s, a, b) {
            Some(e) => {
                out.push(e);
                assert(entries_view(out@) =~= o + seq![e@]);
            },
            None => {
                assert(entries_view(out@) =~= o);
            },
        }
        assert(o + parse_entries(ls) =~= entries_view(out@) + parse_entries(
            lines_of(s@.skip(next as int)),
        ));
        pos = next;
    }
    assert(s@.skip(n as int) =~= Seq::<char>::empty());
    assert(lines_of(Seq::<char>::empty()) =~= Seq::<Seq<char>>::empty());
    assert(entries_view(out@) + Seq::<EntryV>::empty() =~= entries_view(out@));
    out
}

// ---------------------------------------------------------------------------
// Law: the index file reads back as the memories written.
// ---------------------------------------------------------------------------

pub proof fn lemma_index_text_concat(a: Seq<EntryV>, b: Seq<EntryV>)
    ensures
        index_text_spec(a + b) == index_text_spec(a) + index_text_spec(b),
    decreases b.len(),
{
    if b.len() == 0 {
        assert(a + b =~= a);
        assert(index_text_spec(a) + index_text_spec(b) =~= index_text_spec(a));
    } else {
        lemma_index_text_concat(a, b.drop_last());
        assert((a + b).drop_last() =~= a + b.drop_last());
        assert(index_text_spec(a + b) =~= index_text_spec(a) + index_text_spec(b.drop_last())
            + index_line_spec(b.last()));
    }
}

/// The first `c` of `a + [c] + b` is right after `a` when `a` holds none.
proof fn lemma_find_after(a: Seq<char>, c: char, b: Seq<char>)
    requires
        forall|i: int| 0 <= i < a.len() ==> #[trigger] a[i] != c,
    ensures
        find_char(a + seq![c] + b, c) == Some(a.len() as int),
{
    let s = a + seq![c] + b;
    let p = is_char_at(s, c);
    assert forall|j: int| 0 <= j < a.len() implies !#[trigger] p(j) by {
        assert(s[j] == a[j]);
    }
    assert(s[a.len() as int] == c);
    lemma_first_at_is(s.len() as int, p, 0, a.len() as int);
}

/// The line of an entry without its newline.
pub open spec fn index_content(e: EntryV) -> Seq<char> {
    dec_digits(e.id as nat) + seq!['\t'] + escape_spec(e.transcript) + seq!['\t'] + escape_spec(
        e.reply,
    )
}

/// The reply does not end with a carriage return (which line splitting
/// would take for part of a `\r\n` ending).
pub open spec fn no_trailing_cr(e: EntryV) -> bool {
    !(e.reply.len() > 0 && e.reply.last() == '\r')
}

proof fn lemma_entry_line(e: EntryV)
    requires
        no_trailing_cr(e),
    ensures
        forall|i: int| 0 <= i < index_content(e).len() ==> #[trigger] index_content(e)[i] != '\n',
        strip_cr(index_content(e)) == index_content(e),
        parse_entry(index_content(e)) == Some(e),
{
    let d = dec_digits(e.id as nat);
    let et = escape_spec(e.transcript);
    let er = escape_spec(e.reply);
    crate::num::lemma_dec_digits(e.id as nat);
    lemma_escape_plain(e.transcript);
    lemma_escape_plain(e.reply);
    let c = index_content(e);
    assert(c =~= d + seq!['\t'] + et + seq!['\t'] + er);
    assert forall|i: int| 0 <= i < c.len() implies #[trigger] c[i] != '\n' by {
        if i < d.len() {
            assert(crate::num::is_digit(d[i]));
        } else if i == d.len() {
        } else if i < d.len() + 1 + et.len() {
            assert(c[i] == et[i - d.len() - 1]);
        } else if i == d.len() + 1 + et.len() {
        } else {
            assert(c[i] == er[i - d.len() - 2 - et.len()]);
        }
    }
    // The line keeps its last character.
    if e.reply.len() > 0 {
        let r = e.reply;
        assert(er == escape_spec(r.drop_last()) + esc_char(r.last()));
        assert(c.last() == esc_char(r.last()).last());
    } else {
        assert(er =~= Seq::<char>::empty());
        assert(c.last() == '\t');
    }
    // The fields split back at the two tabs.
    assert forall|i: int| 0 <= i < d.len() implies #[trigger] d[i] != '\t' by {
        assert(crate::num::is_digit(d[i]));
    }
    lemma_find_after(d, '\t', et + seq!['\t'] + er);
    assert(c =~= d + seq!['\t'] + (et + seq!['\t'] + er));
    let rest = c.skip(d.len() as int + 1);
    assert(rest =~= et + seq!['\t'] + er);
    lemma_find_after(et, '\t', er);
    assert(c.take(d.len() as int) =~= d);
    crate::num::lemma_parse_unsigned_dec(e.id as nat);
    assert(rest.take(et.len() as int) =~= et);
    assert(rest.skip(et.len() as int + 1) =~= er);
    lemma_unescape_escape(e.transcript);
    lemma_unescape_escape(e.reply);
}

/// Law: reading back an index file gives the memories that were written,
/// in order, provided no reply ends with a carriage return.
pub proof fn lemma_index_round_trip(es: Seq<EntryV>)
    requires
        forall|i: int| 0 <= i < es.len() ==> no_trailing_cr(#[trigger] es[i]),
    ensures
        parse_index_spec(index_text_spec(es)) == es,
    decreases es.len(),
{
    if es.len() == 0 {
        assert(index_text_spec(es) =~= Seq::<char>::empty());
        assert(lines_of(Seq::<char>::empty()) =~= Seq::<Seq<char>>::empty());
    } else {
        let e = es[0];
        let rest = es.drop_first();
        assert(seq![e] + rest =~= es);
        lemma_index_text_concat(seq![e], rest);
        assert(seq![e].drop_last() =~= Seq::<EntryV>::empty());
        assert(index_text_spec(seq![e].drop_last()) =~= Seq::<char>::empty());
        assert(index_text_spec(seq![e]) =~= index_line_spec(e));
        assert(no_trailing_cr(es[0]));
        lemma_entry_line(e);
        let c = index_content(e);
        let r = index_text_spec(rest);
        let t = index_text_spec(es);
        assert(t =~= c + seq!['\n'] + r);
        lemma_find_after(c, '\n', r);
        assert(t.take(c.len() as int) =~= c);
        assert(t.skip(c.len() as int + 1) =~= r);
        assert(lines_of(t) =~= seq![c] + lines_of(r));
        assert forall|i: int| 0 <= i < rest.len() implies no_trailing_cr(#[trigger] rest[i]) by {
            assert(rest[i] == es[i + 1]);
        }
        lemma_index_round_trip(rest);
        let ls = lines_of(t);
        assert(ls.drop_first() =~= lines_of(r));
        assert(parse_entries(ls) =~= seq![e] + parse_entries(lines_of(r)));
    }
}


// ---------------------------------------------------------------------------
// The store.
// ---------------------------------------------------------------------------

/// `name` under directory `dir`, as `Path::join` forms it for a relative
/// name: a `/` goes between them unless `dir` is empty or already ends in one.
pub open spec fn join_path(dir: Seq<char>, name: Seq<char>) -> Seq<char> {
    if dir.len() == 0 {
        name
    } else if dir.last() == '/' {
        dir + name
    } else {
        dir + seq!['/'] + name
    }
}

fn join_path_exec(dir: &str, name: &[char]) -> (p: String)
    ensures
        p@ == join_path(dir@, name@),
{
    let mut out = chars_of(dir);
    let n = out.len();
    if n > 0 && out[n - 1] != '/' {
        out.push('/');
    }
    extend_chars(&mut out, name);
    string_of(&out)
}

/// The memories kept when `es` is cut down to the newest `MAX_MEMORIES`.
pub open spec fn prune_spec(es: Seq<EntryV>) -> Seq<EntryV> {
    if es.len() <= MAX_MEMORIES {
        es
    } else {
        es.skip(es.len() - MAX_MEMORIES)
    }
}

/// The ids of the memories that cutting `es` down forgets, oldest first.
pub open spec fn pruned_ids(es: Seq<EntryV>) -> Seq<u64> {
    if es.len() <= MAX_MEMORIES {
        Seq::empty()
    } else {
        es.take(es.len() - MAX_MEMORIES).map_values(|e: EntryV| e.id)
    }
}

/// The entry a new turn becomes.
pub open spec fn new_entry(id: u64, transcript: Seq<char>, reply: Seq<char>) -> EntryV {
    EntryV { id, transcript, reply }
}

/// The position of the first memory with `id`.
pub open spec fn first_with_id(es: Seq<EntryV>, id: u64) -> Option<int> {
    first_at(es.len() as int, |i: int| es[i].id == id, 0)
}

/// A text with nothing but whitespace in it (one that trims to nothing).
pub open spec fn blank(s: Seq<char>) -> bool {
    forall|i: int| 0 <= i < s.len() ==> is_ws(#[trigger] s[i])
}

/// The words of `s` on one line, cut to at most `max` characters.
pub open spec fn one_line_spec(s: Seq<char>, max: nat) -> Seq<char> {
    let c = collapse_ws(s);
    if c.len() <= max {
        c
    } else {
        c.take(max as int)
    }
}

/// What the catalog says of a memory: its transcript on one line, or its
/// reply when the writer's words were blank.
pub open spec fn gist(e: EntryV) -> Seq<char> {
    if blank(e.transcript) {
        "(reply: "@ + one_line_spec(e.reply, 70) + ")"@
    } else {
        one_line_spec(e.transcript, 70)
    }
}

/// How many memories a catalog of at most `max` lines shows.
pub open spec fn shown(len: nat, max: nat) -> nat {
    if max < len {
        max
    } else {
        len
    }
}

/// Catalog line `k` (numbered `k + 1`) for memory `e`.
pub open spec fn catalog_line(k: nat, e: EntryV, offset: i64) -> Seq<char> {
    dec_digits(k + 1) + ". "@ + spoken_date_spec(e.id, offset) + " \u{2014} "@ + gist(e)
}

/// The catalog lines of `es`, newest first.
pub open spec fn catalog_lines(es: Seq<EntryV>, max: nat, offset: i64) -> Seq<Seq<char>> {
    Seq::new(
        shown(es.len(), max),
        |k: int| catalog_line(k as nat, es[es.len() - 1 - k], offset),
    )
}

/// The ids behind the catalog numbers: `ids[k]` for number `k + 1`.
pub open spec fn catalog_ids(es: Seq<EntryV>, max: nat) -> Seq<u64> {
    Seq::new(shown(es.len(), max), |k: int| es[es.len() - 1 - k].id)
}

/// The conversation carried by `es`: (transcript, reply) of each memory
/// whose transcript is not empty, oldest first.
pub open spec fn dialogue(es: Seq<EntryV>) -> Seq<(Seq<char>, Seq<char>)>
    decreases es.len(),
{
    if es.len() == 0 {
        Seq::empty()
    } else {
        let d = dialogue(es.drop_last());
        let e = es.last();
        if e.transcript.len() > 0 {
            d.push((e.transcript, e.reply))
        } else {
            d
        }
    }
}

/// The dialogue of the last `n` memories.
pub open spec fn recent_spec(es: Seq<EntryV>, n: nat) -> Seq<(Seq<char>, Seq<char>)> {
    dialogue(es.skip(es.len() - shown(es.len(), n)))
}

/// Whether the moment of every memory the catalog shows, shifted by
/// `offset`, fits an `i64`.
pub open spec fn shown_moments_fit(es: Seq<EntryV>, max: nat, offset: i64) -> bool {
    forall|i: int|
        es.len() - shown(es.len(), max) <= i < es.len() ==> i64::MIN <= #[trigger] local_secs(
            es[i].id,
            offset,
        ) <= i64::MAX
}

/// The diary's memory: the remembered turns, oldest first, kept under a
/// directory, with the time-zone shift used to speak of their dates.
pub struct MemoryStore {
    /// The directory the memory lives in.
    pub dir: String,
    /// The remembered turns, oldest first.
    pub entries: Vec<Entry>,
    /// Seconds added to a memory's Unix time to reach the writer's local time.
    pub tz_offset: i64,
}

impl MemoryStore {
    /// A memory under `dir` with nothing remembered yet.
    pub fn new(dir: String, tz_offset: i64) -> (s: Self)
        ensures
            s.dir@ == dir@,
            s.tz_offset == tz_offset,
            s.entries@.len() == 0,
    {
        MemoryStore { dir, entries: Vec::new(), tz_offset }
    }

    /// The index file.
    pub fn index_path(&self) -> (p: String)
        ensures
            p@ == join_path(self.dir@, "index.tsv"@),
    {
        let mut name: Vec<char> = Vec::new();
        push_str(&mut name, "index.tsv");
        join_path_exec(self.dir.as_str(), &name)
    }

    /// The file holding the pen strokes of memory `id`: `<id>.strokes`.
    pub fn strokes_path(&self, id: u64) -> (p: String)
        ensures
            p@ == join_path(self.dir@, dec_digits(id as nat) + ".strokes"@),
    {
        let mut name = fmt_u64(id);
        push_str(&mut name, ".strokes");
        join_path_exec(self.dir.as_str(), &name)
    }

    /// Takes in the memories of an index file's text, after those already
    /// held; malformed lines are skipped.
    pub fn load(&mut self, text: &str)
        ensures
            entries_view(final(self).entries@) == entries_view(old(self).entries@)
                + parse_index_spec(text@),
            final(self).dir@ == old(self).dir@,
            final(self).tz_offset == old(self).tz_offset,
    {
        let ghost before = self.entries@;
        let mut parsed = parse_index(text);
        let ghost p = parsed@;
        self.entries.append(&mut parsed);
        assert(entries_view(self.entries@) =~= entries_view(before) + entries_view(p));
    }

    /// Forgets the oldest memories beyond `MAX_MEMORIES`; returns the ids
    /// forgotten, oldest first (their stroke files are to be removed and the
    /// index rewritten).
    pub fn prune(&mut self) -> (forgotten: Vec<u64>)
        ensures
            entries_view(final(self).entries@) == prune_spec(entries_view(old(self).entries@)),
            forgotten@ == pruned_ids(entries_view(old(self).entries@)),
            final(self).dir@ == old(self).dir@,
            final(self).tz_offset == old(self).tz_offset,
    {
        let ghost ev = entries_view(self.entries@);
        let mut forgotten: Vec<u64> = Vec::new();
        let n = self.entries.len();
        if n <= MAX_MEMORIES {
            assert(forgotten@ =~= pruned_ids(ev));
            return forgotten;
        }
        let drop_n = n - MAX_MEMORIES;
        let mut dropped = self.entries.split_off(drop_n);
        std::mem::swap(&mut self.entries, &mut dropped);
        assert(entries_view(self.entries@) =~= prune_spec(ev));
        let ghost dv = ev.take(drop_n as int);
        assert(entries_view(dropped@) =~= dv);
        let mut i: usize = 0;
        while i < dropped.len()
            invariant
                i <= dropped@.len() == drop_n,
                entries_view(dropped@) == dv,
                forgotten@ == dv.take(i as int).map_values(|e: EntryV| e.id),
            decreases dropped@.len() - i,
        {
            forgotten.push(dropped[i].id);
            proof {
                assert(dv[i as int] == dropped@[i as int]@);
                assert(dv.take(i + 1).map_values(|e: EntryV| e.id) =~= dv.take(i as int).map_values(
                    |e: EntryV| e.id,
                ).push(dropped@[i as int].id));
            }
            i = i + 1;
        }
        assert(dv.take(drop_n as int) =~= dv);
        forgotten
    }

    /// Remembers a finished turn and forgets the oldest pages beyond
    /// `MAX_MEMORIES`; returns the ids forgotten.
    pub fn append(&mut self, id: u64, transcript: &str, reply: &str) -> (forgotten: Vec<u64>)
        ensures
            entries_view(final(self).entries@) == prune_spec(
                entries_view(old(self).entries@).push(new_entry(id, transcript@, reply@)),
            ),
            forgotten@ == pruned_ids(
                entries_view(old(self).entries@).push(new_entry(id, transcript@, reply@)),
            ),
            final(self).dir@ == old(self).dir@,
            final(self).tz_offset == old(self).tz_offset,
    {
        let ghost before = entries_view(self.entries@);
        let e = Entry { id, transcript: transcript.to_owned(), reply: reply.to_owned() };
        self.entries.push(e);
        assert(entries_view(self.entries@) =~= before.push(new_entry(id, transcript@, reply@)));
        self.prune()
    }

    /// The memory with `id` (the first, should two share it).
    pub fn get(&self, id: u64) -> (r: Option<&Entry>)
        ensures
            r == (match first_with_id(entries_view(self.entries@), id) {
                Some(i) => Some(&self.entries@[i]),
                None => None,
            }),
    {
        let ghost ev = entries_view(self.entries@);
        let ghost p = |i: int| ev[i].id == id;
        let mut i: usize = 0;
        while i < self.entries.len()
            invariant
                i <= self.entries@.len(),
                ev == entries_view(self.entries@),
                p == (|i: int| ev[i].id == id),
                forall|j: int| 0 <= j < i ==> !#[trigger] p(j),
            decreases self.entries@.len() - i,
        {
            if self.entries[i].id == id {
                proof {
                    lemma_first_at_is(ev.len() as int, p, 0, i as int);
                }
                return Some(&self.entries[i]);
            }
            assert(!p(i as int));
            i = i + 1;
        }
        proof {
            lemma_first_at_none(ev.len() as int, p, 0);
        }
        None
    }

    /// The last `n` turns as (transcript, reply) pairs, oldest first, leaving
    /// out those whose transcript is empty: the conversational memory that
    /// rides along with each request.
    pub fn recent_dialogue(&self, n: usize) -> (d: Vec<(String, String)>)
        ensures
            pairs_view(d@) == recent_spec(entries_view(self.entries@), n as nat),
    {
        let ghost ev = entries_view(self.entries@);
        let len = self.entries.len();
        let start = if n < len {
            len - n
        } else {
            0
        };
        let ghost tail = ev.skip(start as int);
        let mut out: Vec<(String, String)> = Vec::new();
        let mut i = start;
        assert(tail.take(0) =~= Seq::<EntryV>::empty());
        while i < len
            invariant
                start <= i <= len == self.entries@.len(),
                ev == entries_view(self.entries@),
                tail == ev.skip(start as int),
                pairs_view(out@) == dialogue(tail.take(i - start)),
            decreases len - i,
        {
            let e = &self.entries[i];
            proof {
                let t = tail.take(i + 1 - start);
                assert(t.drop_last() =~= tail.take(i - start));
                assert(t.last() == e@);
            }
            if !e.transcript.as_str().is_empty() {
                let ghost before = out@;
                out.push((e.transcript.clone(), e.reply.clone()));
                assert(pairs_view(out@) =~= pairs_view(before).push((e.transcript@, e.reply@)));
            }
            i = i + 1;
        }
        assert(tail.take(len - start) =~= tail);
        out
    }

    /// The catalog shown to the oracle so it can pick a page to conjure:
    /// at most `max` lines, numbered newest first, each
    /// `N. <spoken date> — <gist>`, and the id behind each number.
    pub fn catalog(&self, max: usize) -> (r: (Vec<String>, Vec<u64>))
        requires
            shown_moments_fit(entries_view(self.entries@), max as nat, self.tz_offset),
        ensures
            strings_view(r.0@) == catalog_lines(
                entries_view(self.entries@),
                max as nat,
                self.tz_offset,
            ),
            r.1@ == catalog_ids(entries_view(self.entries@), max as nat),
    {
        let ghost ev = entries_view(self.entries@);
        let len = self.entries.len();
        let count = if max < len {
            max
        } else {
            len
        };
        let mut lines: Vec<String> = Vec::new();
        let mut ids: Vec<u64> = Vec::new();
        let mut k: usize = 0;
        while k < count
            invariant
                k <= count == shown(len as nat, max as nat),
                len == self.entries@.len(),
                ev == entries_view(self.entries@),
                shown_moments_fit(ev, max as nat, self.tz_offset),
                strings_view(lines@) == catalog_lines(ev, max as nat, self.tz_offset).take(k as int),
                ids@ == catalog_ids(ev, max as nat).take(k as int),
            decreases count - k,
        {
            let e = &self.entries[len - 1 - k];
            assert(e@ == ev[len - 1 - k]);
            assert(i64::MIN <= local_secs(ev[len - 1 - k].id, self.tz_offset) <= i64::MAX);
            let line = catalog_line_exec(k, e, self.tz_offset);
            let ghost before = lines@;
            lines.push(line);
            ids.push(e.id);
            proof {
                assert(strings_view(lines@) =~= strings_view(before).push(line@));
                assert(catalog_lines(ev, max as nat, self.tz_offset).take(k + 1) =~= catalog_lines(
                    ev,
                    max as nat,
                    self.tz_offset,
                ).take(k as int).push(line@));
                assert(catalog_ids(ev, max as nat).take(k + 1) =~= catalog_ids(
                    ev,
                    max as nat,
                ).take(k as int).push(e.id));
            }
            k = k + 1;
        }
        assert(catalog_lines(ev, max as nat, self.tz_offset).take(count as int) =~= catalog_lines(
            ev,
            max as nat,
            self.tz_offset,
        ));
        assert(catalog_ids(ev, max as nat).take(count as int) =~= catalog_ids(ev, max as nat));
        (lines, ids)
    }
}

/// Whether every character of `s` is whitespace.
fn blank_exec(s: &str) -> (b: bool)
    ensures
        b == blank(s@),
{
    let cs = chars_of(s);
    let mut i: usize = 0;
    while i < cs.len()
        invariant
            i <= cs@.len(),
            cs@ == s@,
            forall|j: int| 0 <= j < i ==> is_ws(#[trigger] s@[j]),
        decreases cs@.len() - i,
    {
        if !char_is_ws(cs[i]) {
            return false;
        }
        i = i + 1;
    }
    true
}

/// `s` with its whitespace collapsed to single spaces (newlines included),
/// cut to at most `max` characters, so a multi-line text stays one line.
pub fn one_line(s: &str, max: usize) -> (r: String)
    ensures
        r@ == one_line_spec(s@, max as nat),
{
    let cs = chars_of(s);
    let c = collapse_ws_exec(&cs, 0, cs.len());
    assert(cs@.subrange(0, cs@.len() as int) =~= s@);
    let n = if c.len() <= max {
        c.len()
    } else {
        max
    };
    let t = copy_range(&c, 0, n);
    assert(t@ =~= one_line_spec(s@, max as nat));
    string_of(&t)
}

fn catalog_line_exec(k: usize, e: &Entry, offset: i64) -> (l: String)
    requires
        k < usize::MAX,
        i64::MIN <= local_secs(e.id, offset) <= i64::MAX,
    ensures
        l@ == catalog_line(k as nat, e@, offset),
{
    let mut out = fmt_u64((k + 1) as u64);
    push_str(&mut out, ". ");
    let date = spoken_date(e.id, offset);
    push_str(&mut out, date.as_str());
    push_str(&mut out, " \u{2014} ");
    if blank_exec(e.transcript.as_str()) {
        push_str(&mut out, "(reply: ");
        let r = one_line(e.reply.as_str(), 70);
        push_str(&mut out, r.as_str());
        push_str(&mut out, ")");
    } else {
        let t = one_line(e.transcript.as_str(), 70);
        push_str(&mut out, t.as_str());
    }
    assert(out@ =~= catalog_line(k as nat, e@, offset));
    string_of(&out)
}


/// Whether the diary remembers at all: unless the writer's setting
/// (`RIDDLE_MEMORY`) is `off`, `0`, `no` or `false`.
pub open spec fn memory_enabled_spec(setting: Option<Seq<char>>) -> bool {
    match setting {
        Some(s) => !(s == "off"@ || s == "0"@ || s == "no"@ || s == "false"@),
        None => true,
    }
}

pub fn memory_enabled(setting: Option<&str>) -> (b: bool)
    ensures
        b == memory_enabled_spec(
            match setting {
                Some(s) => Some(s@),
                None => None,
            },
        ),
{
    match setting {
        Some(s) => {
            let v = s.to_string();
            !(v == "off".to_string() || v == "0".to_string() || v == "no".to_string() || v
                == "false".to_string())
        },
        None => true,
    }
}

// ---------------------------------------------------------------------------
// Laws of the store.
// ---------------------------------------------------------------------------

/// No line break in `s`.
pub open spec fn single_line(s: Seq<char>) -> bool {
    forall|i: int| 0 <= i < s.len() ==> #[trigger] s[i] != '\n'
}

proof fn lemma_single_line_concat(a: Seq<char>, b: Seq<char>)
    requires
        single_line(a),
        single_line(b),
    ensures
        single_line(a + b),
{
    assert forall|i: int| 0 <= i < (a + b).len() implies #[trigger] (a + b)[i] != '\n' by {
        if i < a.len() {
            assert((a + b)[i] == a[i]);
        } else {
            assert((a + b)[i] == b[i - a.len()]);
        }
    }
}

proof fn lemma_collapsed_single_line(s: Seq<char>, max: nat)
    ensures
        single_line(one_line_spec(s, max)),
{
    lemma_collapse_state(s);
    let c = collapse_ws(s);
    assert(is_ws('\n'));
    assert forall|i: int| 0 <= i < one_line_spec(s, max).len() implies #[trigger] one_line_spec(
        s,
        max,
    )[i] != '\n' by {
        assert(one_line_spec(s, max)[i] == c[i]);
        if c[i] == '\n' {
            assert(is_ws(c[i]));
        }
    }
}

proof fn lemma_spoken_date_single_line(id: u64, offset: i64)
    ensures
        single_line(spoken_date_spec(id, offset)),
{
    let (y, m, d, h) = civil_spec(local_secs(id, offset));
    reveal_strlit("the ");
    reveal_strlit(" of ");
    reveal_strlit(", ");
    reveal_strlit("th");
    reveal_strlit("st");
    reveal_strlit("nd");
    reveal_strlit("rd");
    reveal_strlit("January");
    reveal_strlit("February");
    reveal_strlit("March");
    reveal_strlit("April");
    reveal_strlit("May");
    reveal_strlit("June");
    reveal_strlit("July");
    reveal_strlit("August");
    reveal_strlit("September");
    reveal_strlit("October");
    reveal_strlit("November");
    reveal_strlit("December");
    reveal_strlit("in the small hours");
    reveal_strlit("in the morning");
    reveal_strlit("in the afternoon");
    reveal_strlit("in the evening");
    reveal_strlit("late at night");
    let digits = dec_digits(d as nat);
    crate::num::lemma_dec_digits(d as nat);
    assert forall|i: int| 0 <= i < digits.len() implies #[trigger] digits[i] != '\n' by {
        assert(crate::num::is_digit(digits[i]));
    }
    lemma_single_line_concat("the "@, digits);
    lemma_single_line_concat("the "@ + digits, day_suffix(d));
    lemma_single_line_concat("the "@ + digits + day_suffix(d), " of "@);
    lemma_single_line_concat("the "@ + digits + day_suffix(d) + " of "@, month_name(m));
    lemma_single_line_concat("the "@ + digits + day_suffix(d) + " of "@ + month_name(m), ", "@);
    lemma_single_line_concat(
        "the "@ + digits + day_suffix(d) + " of "@ + month_name(m) + ", "@,
        time_of_day(h),
    );
}

/// Law: every catalog line is one line of text, so the numbered list the
/// oracle reads back has exactly one line per memory, whatever line breaks
/// the transcripts and replies hold.
pub proof fn lemma_catalog_lines_single(es: Seq<EntryV>, max: nat, offset: i64)
    ensures
        forall|k: int|
            0 <= k < catalog_lines(es, max, offset).len() ==> single_line(
                #[trigger] catalog_lines(es, max, offset)[k],
            ),
{
    assert forall|k: int| 0 <= k < catalog_lines(es, max, offset).len() implies single_line(
        #[trigger] catalog_lines(es, max, offset)[k],
    ) by {
        let e = es[es.len() - 1 - k];
        let n = dec_digits((k + 1) as nat);
        crate::num::lemma_dec_digits((k + 1) as nat);
        assert forall|i: int| 0 <= i < n.len() implies #[trigger] n[i] != '\n' by {
            assert(crate::num::is_digit(n[i]));
        }
        reveal_strlit(". ");
        reveal_strlit(" \u{2014} ");
        reveal_strlit("(reply: ");
        reveal_strlit(")");
        lemma_spoken_date_single_line(e.id, offset);
        lemma_collapsed_single_line(e.reply, 70);
        lemma_collapsed_single_line(e.transcript, 70);
        lemma_single_line_concat("(reply: "@, one_line_spec(e.reply, 70));
        lemma_single_line_concat("(reply: "@ + one_line_spec(e.reply, 70), ")"@);
        assert(single_line(gist(e)));
        lemma_single_line_concat(n, ". "@);
        lemma_single_line_concat(n + ". "@, spoken_date_spec(e.id, offset));
        lemma_single_line_concat(n + ". "@ + spoken_date_spec(e.id, offset), " \u{2014} "@);
        lemma_single_line_concat(
            n + ". "@ + spoken_date_spec(e.id, offset) + " \u{2014} "@,
            gist(e),
        );
        assert(catalog_lines(es, max, offset)[k] == catalog_line(k as nat, e, offset));
    }
}

/// Law: pruning keeps the newest `MAX_MEMORIES` memories in their order,
/// and the ids it reports forgotten followed by the ids kept are the ids
/// that were there.
pub proof fn lemma_prune(es: Seq<EntryV>)
    ensures
        prune_spec(es).len() == shown(es.len(), MAX_MEMORIES as nat),
        prune_spec(es) == es.skip(es.len() - prune_spec(es).len()),
        pruned_ids(es) + prune_spec(es).map_values(|e: EntryV| e.id) == es.map_values(
            |e: EntryV| e.id,
        ),
{
    let ids = |e: EntryV| e.id;
    if es.len() <= MAX_MEMORIES {
        assert(es.skip(0) =~= es);
        assert(pruned_ids(es) + es.map_values(ids) =~= es.map_values(ids));
    } else {
        let d = es.len() - MAX_MEMORIES;
        assert(es.take(d).map_values(ids) + es.skip(d).map_values(ids) =~= es.map_values(ids));
    }
}

/// Law: after a turn is remembered in a memory that held at most
/// `MAX_MEMORIES` pages, it still holds at most that many, the new page is
/// the newest one, and looking its id up finds a memory.
pub proof fn lemma_append_keeps_newest(es: Seq<EntryV>, id: u64, t: Seq<char>, r: Seq<char>)
    requires
        es.len() <= MAX_MEMORIES,
    ensures
        prune_spec(es.push(new_entry(id, t, r))).len() <= MAX_MEMORIES,
        prune_spec(es.push(new_entry(id, t, r))).last() == new_entry(id, t, r),
        first_with_id(prune_spec(es.push(new_entry(id, t, r))), id) is Some,
{
    let all = es.push(new_entry(id, t, r));
    let kept = prune_spec(all);
    assert(kept.last() == all.last());
    let p = |i: int| kept[i].id == id;
    lemma_first_at(kept.len() as int, p, 0);
    assert(p(kept.len() - 1));
}

proof fn lemma_dialogue_len(es: Seq<EntryV>)
    ensures
        dialogue(es).len() <= es.len(),
    decreases es.len(),
{
    if es.len() > 0 {
        lemma_dialogue_len(es.drop_last());
    }
}

/// Law: the dialogue that rides along with a request holds at most `n`
/// turns.
pub proof fn lemma_recent_at_most(es: Seq<EntryV>, n: nat)
    ensures
        recent_spec(es, n).len() <= n,
{
    lemma_dialogue_len(es.skip(es.len() - shown(es.len(), n)));
}

} // verus!
