//! The pen strokes of a remembered page: thinned before they are kept,
//! written one stroke per line as `x,y,r;x,y,r;…`, and read back.

use vstd::prelude::*;
use crate::num::{fmt_i64, int_digits, parse_i32, parse_signed};
use crate::text::{
    chars_of, extend_chars, find_char, find_char_range, is_char_at, lemma_first_at_is, lines_of,
    next_line, string_of, strip_cr,
};

verus! {

broadcast use vstd::string::group_string_axioms;

/// A pen point: screen x, y and brush radius.
pub type Point = (i32, i32, i32);

/// The strokes of a page, each a run of points.
pub type Strokes = Vec<Vec<Point>>;

pub open spec fn strokes_view(v: Seq<Vec<Point>>) -> Seq<Seq<Point>> {
    v.map_values(|s: Vec<Point>| s@)
}

/// Drop replay points closer than this (squared pixels) to the last kept
/// one. Handwriting stays faithful; files shrink several-fold.
pub const MIN_POINT_DIST2: i64 = 9;

// ---------------------------------------------------------------------------
// Thinning.
// ---------------------------------------------------------------------------

pub open spec fn dist2(a: Point, b: Point) -> int {
    (b.0 - a.0) * (b.0 - a.0) + (b.1 - a.1) * (b.1 - a.1)
}

/// Point `i` of a stroke of `n` points is kept after `kept`: the first
/// point, any point at least 3 px from the last kept one, and the last.
pub open spec fn keeps(kept: Seq<Point>, p: Point, i: int, n: int) -> bool {
    kept.len() == 0 || dist2(kept.last(), p) >= 9 || i == n - 1
}

/// The points of `s[..k]` that thinning keeps.
pub open spec fn thin_prefix(s: Seq<Point>, k: int) -> Seq<Point>
    decreases k,
{
    if k <= 0 {
        Seq::empty()
    } else {
        let o = thin_prefix(s, k - 1);
        if keeps(o, s[k - 1], k - 1, s.len() as int) {
            o.push(s[k - 1])
        } else {
            o
        }
    }
}

pub open spec fn thin(s: Seq<Point>) -> Seq<Point> {
    thin_prefix(s, s.len() as int)
}

/// Every stroke thinned; strokes left empty are dropped.
pub open spec fn decimate_spec(ss: Seq<Seq<Point>>) -> Seq<Seq<Point>>
    decreases ss.len(),
{
    if ss.len() == 0 {
        Seq::empty()
    } else {
        let rest = decimate_spec(ss.drop_last());
        let t = thin(ss.last());
        if t.len() > 0 {
            rest.push(t)
        } else {
            rest
        }
    }
}

fn thin_exec(s: &Vec<Point>) -> (out: Vec<Point>)
    ensures
        out@ == thin(s@),
{
    let n = s.len();
    let mut out: Vec<Point> = Vec::new();
    let mut i: usize = 0;
    while i < n
        invariant
            i <= n == s@.len(),
            out@ == thin_prefix(s@, i as int),
        decreases n - i,
    {
        let (x, y, r) = s[i];
        let keep = if out.len() == 0 {
            true
        } else {
            let (lx, ly, _lr) = out[out.len() - 1];
            let dx = x as i128 - lx as i128;
            let dy = y as i128 - ly as i128;
            assert(dx * dx <= 0x1_0000_0000_0000_0000) by (nonlinear_arith)
                requires
                    -0x1_0000_0000 <= dx <= 0x1_0000_0000,
            ;
            assert(dy * dy <= 0x1_0000_0000_0000_0000) by (nonlinear_arith)
                requires
                    -0x1_0000_0000 <= dy <= 0x1_0000_0000,
            ;
            assert(dx * dx >= 0) by (nonlinear_arith);
            assert(dy * dy >= 0) by (nonlinear_arith);
            dx * dx + dy * dy >= 9 || i == n - 1
        };
        if keep {
            out.push((x, y, r));
        }
        i = i + 1;
    }
    out
}

/// Thins every stroke (dropping points closer than 3 px to the last kept
/// one, but always keeping the first and the last) and drops empty strokes.
pub fn decimate(strokes: &Strokes) -> (out: Strokes)
    ensures
        strokes_view(out@) == decimate_spec(strokes_view(strokes@)),
{
    let ghost sv = strokes_view(strokes@);
    let mut out: Strokes = Vec::new();
    let mut i: usize = 0;
    assert(sv.take(0) =~= Seq::<Seq<Point>>::empty());
    while i < strokes.len()
        invariant
            i <= strokes@.len(),
            sv == strokes_view(strokes@),
            strokes_view(out@) == decimate_spec(sv.take(i as int)),
        decreases strokes@.len() - i,
    {
        let t = thin_exec(&strokes[i]);
        let ghost o = strokes_view(out@);
        proof {
            assert(sv.take(i + 1).drop_last() =~= sv.take(i as int));
            assert(sv.take(i + 1).last() == strokes@[i as int]@);
        }
        if t.len() > 0 {
            out.push(t);
            assert(strokes_view(out@) =~= o.push(t@));
        }
        i = i + 1;
    }
    assert(sv.take(strokes@.len() as int) =~= sv);
    out
}

proof fn lemma_thin_prefix(s: Seq<Point>, k: int)
    requires
        0 < k <= s.len(),
    ensures
        thin_prefix(s, k).len() > 0,
        thin_prefix(s, k)[0] == s[0],
        thin_prefix(s, k).len() <= k,
    decreases k,
{
    assert(thin_prefix(s, 0) =~= Seq::<Point>::empty());
    if k > 1 {
        lemma_thin_prefix(s, k - 1);
        let o = thin_prefix(s, k - 1);
        if keeps(o, s[k - 1], k - 1, s.len() as int) {
            assert(o.push(s[k - 1])[0] == o[0]);
        }
    }
}

/// Law: thinning a stroke keeps its first and its last point and never
/// adds points.
pub proof fn lemma_thin_endpoints(s: Seq<Point>)
    requires
        s.len() > 0,
    ensures
        thin(s).len() > 0,
        thin(s)[0] == s[0],
        thin(s).last() == s.last(),
        thin(s).len() <= s.len(),
{
    lemma_thin_prefix(s, s.len() as int);
}

/// Law: no stroke of a decimated page is empty.
pub proof fn lemma_decimate_nonempty(ss: Seq<Seq<Point>>)
    ensures
        forall|i: int| 0 <= i < decimate_spec(ss).len() ==> #[trigger] decimate_spec(ss)[i].len()
            > 0,
    decreases ss.len(),
{
    if ss.len() > 0 {
        lemma_decimate_nonempty(ss.drop_last());
        let rest = decimate_spec(ss.drop_last());
        let t = thin(ss.last());
        let d = decimate_spec(ss);
        assert forall|i: int| 0 <= i < d.len() implies #[trigger] d[i].len() > 0 by {
            if i < rest.len() {
                assert(d[i] == rest[i]);
            }
        }
    }
}

// ---------------------------------------------------------------------------
// The strokes file.
// ---------------------------------------------------------------------------

/// `x,y,r`.
pub open spec fn point_text(p: Point) -> Seq<char> {
    int_digits(p.0 as int) + seq![','] + int_digits(p.1 as int) + seq![','] + int_digits(
        p.2 as int,
    )
}

/// The points of a stroke joined by `;`.
pub open spec fn stroke_text(s: Seq<Point>) -> Seq<char>
    decreases s.len(),
{
    if s.len() == 0 {
        Seq::empty()
    } else if s.len() == 1 {
        point_text(s[0])
    } else {
        stroke_text(s.drop_last()) + seq![';'] + point_text(s.last())
    }
}

/// One line per stroke.
pub open spec fn strokes_text_spec(ss: Seq<Seq<Point>>) -> Seq<char>
    decreases ss.len(),
{
    if ss.len() == 0 {
        Seq::empty()
    } else {
        strokes_text_spec(ss.drop_last()) + stroke_text(ss.last()) + seq!['\n']
    }
}

fn point_text_into(out: &mut Vec<char>, p: Point)
    ensures
        final(out)@ == old(out)@ + point_text(p),
{
    let ghost o = out@;
    let a = fmt_i64(p.0 as i64);
    extend_chars(out, &a);
    out.push(',');
    let b = fmt_i64(p.1 as i64);
    extend_chars(out, &b);
    out.push(',');
    let c = fmt_i64(p.2 as i64);
    extend_chars(out, &c);
    assert(out@ =~= o + point_text(p));
}

/// The strokes file text: one line per stroke, `x,y,r` points joined by `;`.
pub fn strokes_text(strokes: &Strokes) -> (t: String)
    ensures
        t@ == strokes_text_spec(strokes_view(strokes@)),
{
    let ghost sv = strokes_view(strokes@);
    let mut out: Vec<char> = Vec::new();
    let mut i: usize = 0;
    assert(sv.take(0) =~= Seq::<Seq<Point>>::empty());
    while i < strokes.len()
        invariant
            i <= strokes@.len(),
            sv == strokes_view(strokes@),
            out@ == strokes_text_spec(sv.take(i as int)),
        decreases strokes@.len() - i,
    {
        let s = &strokes[i];
        let ghost o = out@;
        let mut j: usize = 0;
        assert(s@.take(0) =~= Seq::<Point>::empty());
        while j < s.len()
            invariant
                j <= s@.len(),
                out@ == o + stroke_text(s@.take(j as int)),
            decreases s@.len() - j,
        {
            if j > 0 {
                out.push(';');
            }
            point_text_into(&mut out, s[j]);
            proof {
                let t = s@.take(j + 1);
                assert(t.drop_last() =~= s@.take(j as int));
                assert(t.last() == s@[j as int]);
                if j == 0 {
                    assert(s@.take(0) =~= Seq::<Point>::empty());
                    assert(out@ =~= o + stroke_text(t));
                } else {
                    assert(out@ =~= o + stroke_text(t));
                }
            }
            j = j + 1;
        }
        out.push('\n');
        proof {
            assert(s@.take(s@.len() as int) =~= s@);
            assert(sv.take(i + 1).drop_last() =~= sv.take(i as int));
            assert(sv.take(i + 1).last() == s@);
            assert(out@ =~= strokes_text_spec(sv.take(i + 1)));
        }
        i = i + 1;
    }
    assert(sv.take(strokes@.len() as int) =~= sv);
    string_of(&out)
}

// ---------------------------------------------------------------------------
// Reading the strokes file back.
// ---------------------------------------------------------------------------

pub open spec fn in_i32(v: int) -> bool {
    i32::MIN <= v <= i32::MAX
}

/// One `x,y,r` point: the first three `,`-separated fields, each a signed
/// decimal that fits an `i32` (further fields are ignored).
pub open spec fn parse_point(pt: Seq<char>) -> Option<Point> {
    match find_char(pt, ',') {
        None => None,
        Some(a) => {
            let r1 = pt.skip(a + 1);
            match find_char(r1, ',') {
                None => None,
                Some(b) => {
                    let r2 = r1.skip(b + 1);
                    let z = match find_char(r2, ',') {
                        Some(c) => r2.take(c),
                        None => r2,
                    };
                    match (parse_signed(pt.take(a)), parse_signed(r1.take(b)), parse_signed(z)) {
                        (Some(x), Some(y), Some(w)) => if in_i32(x) && in_i32(y) && in_i32(w) {
                            Some((x as i32, y as i32, w as i32))
                        } else {
                            None
                        },
                        _ => None,
                    }
                },
            }
        },
    }
}

/// The well-formed points of a `;`-separated line, in order.
pub open spec fn parse_points(line: Seq<char>) -> Seq<Point>
    decreases line.len(),
{
    let head = |t: Seq<char>|
        match parse_point(t) {
            Some(p) => seq![p],
            None => Seq::<Point>::empty(),
        };
    match find_char(line, ';') {
        Some(k) => if 0 <= k < line.len() {
            head(line.take(k)) + parse_points(line.skip(k + 1))
        } else {
            Seq::empty()
        },
        None => head(line),
    }
}

/// The strokes of a file: one per line holding at least one point.
pub open spec fn parse_lines(ls: Seq<Seq<char>>) -> Seq<Seq<Point>>
    decreases ls.len(),
{
    if ls.len() == 0 {
        Seq::empty()
    } else {
        let p = parse_points(ls[0]);
        (if p.len() > 0 {
            seq![p]
        } else {
            Seq::empty()
        }) + parse_lines(ls.drop_first())
    }
}

pub open spec fn parse_strokes_spec(text: Seq<char>) -> Seq<Seq<Point>> {
    parse_lines(lines_of(text))
}

fn parse_point_range(s: &[char], lo: usize, hi: usize) -> (r: Option<Point>)
    requires
        lo <= hi <= s@.len(),
    ensures
        r == parse_point(s@.subrange(lo as int, hi as int)),
{
    let ghost pt = s@.subrange(lo as int, hi as int);
    let a = match find_char_range(s, ',', lo, hi) {
        Some(a) => a,
        None => {
            return None;
        },
    };
    let ghost r1 = pt.skip(a - lo + 1);
    assert(r1 =~= s@.subrange(a + 1, hi as int));
    let b = match find_char_range(s, ',', a + 1, hi) {
        Some(b) => b,
        None => {
            return None;
        },
    };
    let ghost r2 = r1.skip(b - a);
    assert(r2 =~= s@.subrange(b + 1, hi as int));
    let c = match find_char_range(s, ',', b + 1, hi) {
        Some(c) => c,
        None => hi,
    };
    proof {
        assert(pt.take(a - lo) =~= s@.subrange(lo as int, a as int));
        assert(r1.take(b - a - 1) =~= s@.subrange(a + 1, b as int));
        if c < hi {
            assert(r2.take(c - b - 1) =~= s@.subrange(b + 1, c as int));
        }
    }
    let x = parse_i32(s, lo, a);
    let y = parse_i32(s, a + 1, b);
    let w = parse_i32(s, b + 1, c);
    match (x, y, w) {
        (Some(x), Some(y), Some(w)) => Some((x, y, w)),
        _ => None,
    }
}

fn parse_points_range(s: &[char], lo: usize, hi: usize) -> (out: Vec<Point>)
    requires
        lo <= hi <= s@.len(),
    ensures
        out@ == parse_points(s@.subrange(lo as int, hi as int)),
{
    let mut out: Vec<Point> = Vec::new();
    let mut pos = lo;
    assert(out@ + parse_points(s@.subrange(lo as int, hi as int)) =~= parse_points(
        s@.subrange(lo as int, hi as int),
    ));
    loop
        invariant_except_break
            out@ + parse_points(s@.subrange(pos as int, hi as int)) == parse_points(
                s@.subrange(lo as int, hi as int),
            ),
        invariant
            lo <= pos <= hi <= s@.len(),
        ensures
            out@ == parse_points(s@.subrange(lo as int, hi as int)),
        decreases hi - pos,
    {
        let ghost line = s@.subrange(pos as int, hi as int);
        let ghost o = out@;
        match find_char_range(s, ';', pos, hi) {
            Some(k) => {
                assert(line.take(k - pos) =~= s@.subrange(pos as int, k as int));
                assert(line.skip(k - pos + 1) =~= s@.subrange(k + 1, hi as int));
                match parse_point_range(s, pos, k) {
                    Some(p) => {
                        out.push(p);
                    },
                    None => {},
                }
                assert(o + parse_points(line) =~= out@ + parse_points(
                    s@.subrange(k + 1, hi as int),
                ));
                pos = k + 1;
            },
            None => {
                match parse_point_range(s, pos, hi) {
                    Some(p) => {
                        out.push(p);
                    },
                    None => {},
                }
                assert(out@ =~= o + parse_points(line));
                break;
            },
        }
    }
    out
}

/// The strokes of a strokes file: one stroke per line, malformed points
/// skipped, lines without a point dropped.
pub fn parse_strokes(text: &str) -> (out: Strokes)
    ensures
        strokes_view(out@) == parse_strokes_spec(text@),
{
    let s = chars_of(text);
    let n = s.len();
    let mut out: Strokes = Vec::new();
    let mut pos: usize = 0;
    assert(s@.skip(0) =~= s@);
    assert(strokes_view(out@) + parse_lines(lines_of(s@.skip(0))) =~= parse_strokes_spec(text@));
    while pos < n
        invariant
            pos <= n == s@.len(),
            strokes_view(out@) + parse_lines(lines_of(s@.skip(pos as int))) == parse_strokes_spec(
                text@,
            ),
        decreases n - pos,
    {
        let (a, b, next) = next_line(&s, pos);
        let ghost ls = lines_of(s@.skip(pos as int));
        let ghost o = strokes_view(out@);
        assert(ls.drop_first() =~= lines_of(s@.skip(next as int)));
        let pts = parse_points_range(&s, a, b);
        if pts.len() > 0 {
            out.push(pts);
            assert(strokes_view(out@) =~= o + seq![pts@]);
        } else {
            assert(strokes_view(out@) =~= o);
        }
        assert(o + parse_lines(ls) =~= strokes_view(out@) + parse_lines(
            lines_of(s@.skip(next as int)),
        ));
        pos = next;
    }
    assert(s@.skip(n as int) =~= Seq::<char>::empty());
    assert(lines_of(Seq::<char>::empty()) =~= Seq::<Seq<char>>::empty());
    assert(strokes_view(out@) + Seq::<Seq<Point>>::empty() =~= strokes_view(out@));
    out
}

// ---------------------------------------------------------------------------
// Law: a strokes file reads back as the strokes written.
// ---------------------------------------------------------------------------

/// Characters of a written number: digits and `-`.
pub open spec fn numeral_char(c: char) -> bool {
    crate::num::is_digit(c) || c == '-'
}

proof fn lemma_int_digits_chars(x: int)
    ensures
        forall|i: int| 0 <= i < int_digits(x).len() ==> numeral_char(#[trigger] int_digits(x)[i]),
        int_digits(x).len() > 0,
        crate::num::is_digit(int_digits(x).last()),
{
    let n = if x < 0 {
        (-x) as nat
    } else {
        x as nat
    };
    crate::num::lemma_dec_digits(n);
    let d = crate::num::dec_digits(n);
    let t = int_digits(x);
    assert forall|i: int| 0 <= i < t.len() implies numeral_char(#[trigger] t[i]) by {
        if x < 0 {
            if i > 0 {
                assert(t[i] == d[i - 1]);
            }
        } else {
            assert(t[i] == d[i]);
        }
    }
    if x < 0 {
        assert(t.last() == d.last());
    }
}

proof fn lemma_find_after(a: Seq<char>, c: char, b: Seq<char>)
    requires
        forall|i: int| 0 <= i < a.len() ==> #[trigger] a[i] != c,
    ensures
        find_char(a + seq![c] + b, c) == Some(a.len() as int),
{
    let s = a + seq![c] + b;
    let p = is_char_at(s, c);
    assert forall|j: int| 0 <= j < a.len() implies !#[trigger] p(j) by {
        assert(s[j] == a[j]);
    }
    assert(s[a.len() as int] == c);
    lemma_first_at_is(s.len() as int, p, 0, a.len() as int);
}

proof fn lemma_find_none(a: Seq<char>, c: char)
    requires
        forall|i: int| 0 <= i < a.len() ==> #[trigger] a[i] != c,
    ensures
        find_char(a, c) is None,
{
    let p = is_char_at(a, c);
    assert forall|j: int| 0 <= j < a.len() implies !#[trigger] p(j) by {}
    crate::text::lemma_first_at_none(a.len() as int, p, 0);
}

/// Characters a stroke line is written with.
pub open spec fn stroke_char(c: char) -> bool {
    numeral_char(c) || c == ',' || c == ';'
}

proof fn lemma_point_text(p: Point)
    ensures
        parse_point(point_text(p)) == Some(p),
        forall|i: int| 0 <= i < point_text(p).len() ==> stroke_char(#[trigger] point_text(p)[i])
            && point_text(p)[i] != ';',
        point_text(p).len() > 0,
        crate::num::is_digit(point_text(p).last()),
{
    let a = int_digits(p.0 as int);
    let b = int_digits(p.1 as int);
    let c = int_digits(p.2 as int);
    lemma_int_digits_chars(p.0 as int);
    lemma_int_digits_chars(p.1 as int);
    lemma_int_digits_chars(p.2 as int);
    let t = point_text(p);
    assert(t =~= a + seq![','] + (b + seq![','] + c));
    assert forall|i: int| 0 <= i < a.len() implies #[trigger] a[i] != ',' by {
        assert(numeral_char(a[i]));
    }
    assert forall|i: int| 0 <= i < b.len() implies #[trigger] b[i] != ',' by {
        assert(numeral_char(b[i]));
    }
    assert forall|i: int| 0 <= i < c.len() implies #[trigger] c[i] != ',' by {
        assert(numeral_char(c[i]));
    }
    lemma_find_after(a, ',', b + seq![','] + c);
    let r1 = t.skip(a.len() as int + 1);
    assert(r1 =~= b + seq![','] + c);
    lemma_find_after(b, ',', c);
    let r2 = r1.skip(b.len() as int + 1);
    assert(r2 =~= c);
    lemma_find_none(c, ',');
    assert(t.take(a.len() as int) =~= a);
    assert(r1.take(b.len() as int) =~= b);
    crate::num::lemma_parse_signed_int(p.0 as int);
    crate::num::lemma_parse_signed_int(p.1 as int);
    crate::num::lemma_parse_signed_int(p.2 as int);
    assert forall|i: int| 0 <= i < t.len() implies stroke_char(#[trigger] t[i]) && t[i] != ';' by {
        if i < a.len() {
            assert(t[i] == a[i]);
        } else if i == a.len() {
        } else if i < a.len() + 1 + b.len() {
            assert(t[i] == b[i - a.len() - 1]);
        } else if i == a.len() + 1 + b.len() {
        } else {
            assert(t[i] == c[i - a.len() - 2 - b.len()]);
        }
    }
    assert(t.last() == c.last());
}

proof fn lemma_stroke_text_front(s: Seq<Point>)
    requires
        s.len() > 1,
    ensures
        stroke_text(s) == point_text(s[0]) + seq![';'] + stroke_text(s.drop_first()),
    decreases s.len(),
{
    if s.len() == 2 {
        assert(s.drop_last().len() == 1);
        assert(stroke_text(s.drop_last()) == point_text(s[0]));
        assert(s.drop_first().len() == 1);
        assert(stroke_text(s.drop_first()) == point_text(s[1]));
    } else {
        lemma_stroke_text_front(s.drop_last());
        assert(s.drop_last().drop_first() =~= s.drop_first().drop_last());
        assert(s.drop_first().last() == s.last());
        assert(stroke_text(s) =~= point_text(s[0]) + seq![';'] + stroke_text(s.drop_first()));
    }
}

proof fn lemma_stroke_text(s: Seq<Point>)
    requires
        s.len() > 0,
    ensures
        parse_points(stroke_text(s)) == s,
        forall|i: int| 0 <= i < stroke_text(s).len() ==> stroke_char(#[trigger] stroke_text(s)[i]),
        stroke_text(s).len() > 0,
        crate::num::is_digit(stroke_text(s).last()),
    decreases s.len(),
{
    let p = s[0];
    lemma_point_text(p);
    let pt = point_text(p);
    if s.len() == 1 {
        assert(stroke_text(s) == pt);
        lemma_find_none(pt, ';');
        assert(parse_points(pt) =~= seq![p]);
        assert(seq![p] =~= s);
    } else {
        let rest = s.drop_first();
        lemma_stroke_text_front(s);
        lemma_stroke_text(rest);
        let rt = stroke_text(rest);
        let t = stroke_text(s);
        assert(t =~= pt + seq![';'] + rt);
        lemma_find_after(pt, ';', rt);
        assert(t.take(pt.len() as int) =~= pt);
        assert(t.skip(pt.len() as int + 1) =~= rt);
        assert(parse_points(t) =~= seq![p] + rest);
        assert(seq![p] + rest =~= s);
        assert forall|i: int| 0 <= i < t.len() implies stroke_char(#[trigger] t[i]) by {
            if i < pt.len() {
                assert(t[i] == pt[i]);
            } else if i == pt.len() {
            } else {
                assert(t[i] == rt[i - pt.len() - 1]);
            }
        }
        assert(t.last() == rt.last());
    }
}

pub proof fn lemma_strokes_text_concat(a: Seq<Seq<Point>>, b: Seq<Seq<Point>>)
    ensures
        strokes_text_spec(a + b) == strokes_text_spec(a) + strokes_text_spec(b),
    decreases b.len(),
{
    if b.len() == 0 {
        assert(a + b =~= a);
        assert(strokes_text_spec(a) + strokes_text_spec(b) =~= strokes_text_spec(a));
    } else {
        lemma_strokes_text_concat(a, b.drop_last());
        assert((a + b).drop_last() =~= a + b.drop_last());
        assert(strokes_text_spec(a + b) =~= strokes_text_spec(a) + strokes_text_spec(b.drop_last())
            + stroke_text(b.last()) + seq!['\n']);
    }
}

/// Law: reading back a strokes file gives the strokes written, provided
/// no stroke is empty (as after `decimate`).
pub proof fn lemma_strokes_round_trip(ss: Seq<Seq<Point>>)
    requires
        forall|i: int| 0 <= i < ss.len() ==> #[trigger] ss[i].len() > 0,
    ensures
        parse_strokes_spec(strokes_text_spec(ss)) == ss,
    decreases ss.len(),
{
    if ss.len() == 0 {
        assert(strokes_text_spec(ss) =~= Seq::<char>::empty());
        assert(lines_of(Seq::<char>::empty()) =~= Seq::<Seq<char>>::empty());
    } else {
        let s0 = ss[0];
        let rest = ss.drop_first();
        assert(seq![s0] + rest =~= ss);
        lemma_strokes_text_concat(seq![s0], rest);
        assert(seq![s0].drop_last() =~= Seq::<Seq<Point>>::empty());
        assert(strokes_text_spec(seq![s0].drop_last()) =~= Seq::<char>::empty());
        assert(strokes_text_spec(seq![s0]) =~= stroke_text(s0) + seq!['\n']);
        assert(ss[0].len() > 0);
        lemma_stroke_text(s0);
        let st = stroke_text(s0);
        let rt = strokes_text_spec(rest);
        let t = strokes_text_spec(ss);
        assert(t =~= st + seq!['\n'] + rt);
        assert forall|i: int| 0 <= i < st.len() implies #[trigger] st[i] != '\n' by {
            assert(stroke_char(st[i]));
        }
        lemma_find_after(st, '\n', rt);
        assert(t.take(st.len() as int) =~= st);
        assert(t.skip(st.len() as int + 1) =~= rt);
        assert(strip_cr(st) == st);
        assert(lines_of(t) =~= seq![st] + lines_of(rt));
        assert forall|i: int| 0 <= i < rest.len() implies #[trigger] rest[i].len() > 0 by {
            assert(rest[i] == ss[i + 1]);
        }
        lemma_strokes_round_trip(rest);
        let ls = lines_of(t);
        assert(ls.drop_first() =~= lines_of(rt));
        assert(parse_lines(ls) =~= seq![s0] + parse_lines(lines_of(rt)));
    }
}

/// Law: what `append` writes for a page's strokes reads back as the
/// decimated strokes.
pub proof fn lemma_decimated_round_trip(ss: Seq<Seq<Point>>)
    ensures
        parse_strokes_spec(strokes_text_spec(decimate_spec(ss))) == decimate_spec(ss),
{
    lemma_decimate_nonempty(ss);
    lemma_strokes_round_trip(decimate_spec(ss));
}

} // verus!
