//! Character-level helpers shared by the parsers: conversions between
//! `str`/`String` and character vectors, Unicode whitespace, trimming,
//! searching and whitespace collapsing.

use vstd::prelude::*;

verus! {

broadcast use vstd::string::group_string_axioms;

// ---------------------------------------------------------------------------
// Searching: the first / last index in a range satisfying a predicate.
// ---------------------------------------------------------------------------

/// The first `k` in `[i, n)` with `p(k)`.
pub open spec fn first_at(n: int, p: spec_fn(int) -> bool, i: int) -> Option<int>
    decreases n - i,
{
    if i >= n {
        None
    } else if p(i) {
        Some(i)
    } else {
        first_at(n, p, i + 1)
    }
}

/// The last `k` in `[0, i)` with `p(k)`.
pub open spec fn last_before(p: spec_fn(int) -> bool, i: int) -> Option<int>
    decreases i,
{
    if i <= 0 {
        None
    } else if p(i - 1) {
        Some(i - 1)
    } else {
        last_before(p, i - 1)
    }
}

pub proof fn lemma_first_at(n: int, p: spec_fn(int) -> bool, i: int)
    ensures
        match first_at(n, p, i) {
            Some(k) => i <= k < n && p(k) && forall|j: int| i <= j < k ==> !#[trigger] p(j),
            None => forall|j: int| i <= j < n ==> !#[trigger] p(j),
        },
    decreases n - i,
{
    if i < n && !p(i) {
        lemma_first_at(n, p, i + 1);
    }
}

pub proof fn lemma_first_at_is(n: int, p: spec_fn(int) -> bool, i: int, k: int)
    requires
        i <= k < n,
        p(k),
        forall|j: int| i <= j < k ==> !#[trigger] p(j),
    ensures
        first_at(n, p, i) == Some(k),
    decreases k - i,
{
    if i < k {
        lemma_first_at_is(n, p, i + 1, k);
    }
}

pub proof fn lemma_first_at_none(n: int, p: spec_fn(int) -> bool, i: int)
    requires
        forall|j: int| i <= j < n ==> !#[trigger] p(j),
    ensures
        first_at(n, p, i) is None,
    decreases n - i,
{
    if i < n {
        lemma_first_at_none(n, p, i + 1);
    }
}

pub proof fn lemma_last_before(p: spec_fn(int) -> bool, i: int)
    ensures
        match last_before(p, i) {
            Some(k) => 0 <= k < i && p(k) && forall|j: int| k < j < i ==> !#[trigger] p(j),
            None => forall|j: int| 0 <= j < i ==> !#[trigger] p(j),
        },
    decreases i,
{
    if i > 0 && !p(i - 1) {
        lemma_last_before(p, i - 1);
    }
}

pub proof fn lemma_last_before_is(p: spec_fn(int) -> bool, i: int, k: int)
    requires
        0 <= k < i,
        p(k),
        forall|j: int| k < j < i ==> !#[trigger] p(j),
    ensures
        last_before(p, i) == Some(k),
    decreases i - k,
{
    if k < i - 1 {
        lemma_last_before_is(p, i - 1, k);
    }
}

pub proof fn lemma_last_before_none(p: spec_fn(int) -> bool, i: int)
    requires
        forall|j: int| 0 <= j < i ==> !#[trigger] p(j),
    ensures
        last_before(p, i) is None,
    decreases i,
{
    if i > 0 {
        lemma_last_before_none(p, i - 1);
    }
}

// ---------------------------------------------------------------------------
// Unicode whitespace (the `White_Space` property, as `char::is_whitespace`).
// ---------------------------------------------------------------------------

pub open spec fn is_ws(c: char) -> bool {
    let u = c as u32;
    ||| 0x09 <= u <= 0x0d
    ||| u == 0x20
    ||| u == 0x85
    ||| u == 0xa0
    ||| u == 0x1680
    ||| 0x2000 <= u <= 0x200a
    ||| u == 0x2028
    ||| u == 0x2029
    ||| u == 0x202f
    ||| u == 0x205f
    ||| u == 0x3000
}

pub fn char_is_ws(c: char) -> (b: bool)
    ensures
        b == is_ws(c),
{
    let u = c as u32;
    (0x09 <= u && u <= 0x0d) || u == 0x20 || u == 0x85 || u == 0xa0 || u == 0x1680 || (0x2000
        <= u && u <= 0x200a) || u == 0x2028 || u == 0x2029 || u == 0x202f || u == 0x205f || u
        == 0x3000
}

// ---------------------------------------------------------------------------
// Trimming.
// ---------------------------------------------------------------------------

pub open spec fn non_ws_at(s: Seq<char>) -> spec_fn(int) -> bool {
    |k: int| !is_ws(s[k])
}

/// `s` without its leading whitespace.
pub open spec fn trim_start(s: Seq<char>) -> Seq<char> {
    match first_at(s.len() as int, non_ws_at(s), 0) {
        Some(k) => s.subrange(k, s.len() as int),
        None => Seq::empty(),
    }
}

/// `s` without its trailing whitespace.
pub open spec fn trim_end(s: Seq<char>) -> Seq<char> {
    match last_before(non_ws_at(s), s.len() as int) {
        Some(k) => s.subrange(0, k + 1),
        None => Seq::empty(),
    }
}

/// `s` without leading and trailing whitespace.
pub open spec fn trim(s: Seq<char>) -> Seq<char> {
    trim_end(trim_start(s))
}

/// One past the last non-whitespace character of `s` before `to`, but not
/// below `from`.
pub fn skip_ws_back(s: &[char], from: usize, to: usize) -> (k: usize)
    requires
        from <= to <= s@.len(),
    ensures
        from <= k <= to,
        forall|j: int| k <= j < to ==> is_ws(#[trigger] s@[j]),
        k > from ==> !is_ws(s@[k - 1]),
{
    let mut k = to;
    while k > from && char_is_ws(s[k - 1])
        invariant
            from <= k <= to <= s@.len(),
            forall|j: int| k <= j < to ==> is_ws(#[trigger] s@[j]),
        decreases k,
    {
        k = k - 1;
    }
    k
}

/// A trimmed text starts and ends with a character other than whitespace.
pub open spec fn trimmed_nonempty(t: Seq<char>) -> bool {
    t.len() > 0 && !is_ws(t[0]) && !is_ws(t.last())
}

pub proof fn lemma_trim_edges(s: Seq<char>)
    ensures
        trim(s).len() > 0 ==> trimmed_nonempty(trim(s)),
{
    let p = non_ws_at(s);
    lemma_first_at(s.len() as int, p, 0);
    let u = trim_start(s);
    match first_at(s.len() as int, p, 0) {
        Some(k) => {
            assert(u[0] == s[k]);
            let q = non_ws_at(u);
            lemma_last_before(q, u.len() as int);
            match last_before(q, u.len() as int) {
                Some(m) => {
                    let t = trim_end(u);
                    assert(t[0] == u[0]);
                    assert(t.last() == u[m]);
                },
                None => {},
            }
        },
        None => {
            assert(u.len() == 0);
            lemma_last_before(non_ws_at(u), 0);
        },
    }
}

/// A trimmed text is its own trim.
pub proof fn lemma_trimmed_fixed(t: Seq<char>)
    requires
        trimmed_nonempty(t),
    ensures
        trim(t) == t,
{
    lemma_trim_start_at(t, 0);
    assert(t.subrange(0, t.len() as int) =~= t);
    lemma_trim_end_at(t, t.len() as int);
}

pub proof fn lemma_trim_start_at(s: Seq<char>, k: int)
    requires
        0 <= k <= s.len(),
        forall|j: int| 0 <= j < k ==> is_ws(#[trigger] s[j]),
        k < s.len() ==> !is_ws(s[k]),
    ensures
        trim_start(s) == s.subrange(k, s.len() as int),
{
    let p = non_ws_at(s);
    if k < s.len() {
        assert forall|j: int| 0 <= j < k implies !#[trigger] p(j) by {
            assert(is_ws(s[j]));
        }
        lemma_first_at_is(s.len() as int, p, 0, k);
    } else {
        assert forall|j: int| 0 <= j < s.len() implies !#[trigger] p(j) by {
            assert(is_ws(s[j]));
        }
        lemma_first_at_none(s.len() as int, p, 0);
        assert(s.subrange(k, s.len() as int) =~= Seq::<char>::empty());
    }
}

pub proof fn lemma_trim_end_at(s: Seq<char>, k: int)
    requires
        0 <= k <= s.len(),
        forall|j: int| k <= j < s.len() ==> is_ws(#[trigger] s[j]),
        k > 0 ==> !is_ws(s[k - 1]),
    ensures
        trim_end(s) == s.subrange(0, k),
{
    let p = non_ws_at(s);
    if k > 0 {
        assert forall|j: int| k - 1 < j < s.len() implies !#[trigger] p(j) by {
            assert(is_ws(s[j]));
        }
        lemma_last_before_is(p, s.len() as int, k - 1);
    } else {
        assert forall|j: int| 0 <= j < s.len() implies !#[trigger] p(j) by {
            assert(is_ws(s[j]));
        }
        lemma_last_before_none(p, s.len() as int);
        assert(s.subrange(0, k) =~= Seq::<char>::empty());
    }
}

/// Bounds `(a, b)` such that `s[a..b]` is `s[lo..hi]` trimmed.
pub fn trim_bounds(s: &[char], lo: usize, hi: usize) -> (r: (usize, usize))
    requires
        lo <= hi <= s@.len(),
    ensures
        lo <= r.0 <= r.1 <= hi,
        s@.subrange(r.0 as int, r.1 as int) == trim(s@.subrange(lo as int, hi as int)),
{
    let mut a = lo;
    while a < hi && char_is_ws(s[a])
        invariant
            lo <= a <= hi <= s@.len(),
            forall|j: int| lo <= j < a ==> is_ws(#[trigger] s@[j]),
        decreases hi - a,
    {
        a = a + 1;
    }
    let b = skip_ws_back(s, a, hi);
    proof {
        let sub = s@.subrange(lo as int, hi as int);
        lemma_trim_start_at(sub, a - lo);
        let ts = trim_start(sub);
        assert(ts =~= s@.subrange(a as int, hi as int));
        lemma_trim_end_at(ts, b - a);
        assert(ts.subrange(0, b - a) =~= s@.subrange(a as int, b as int));
    }
    (a, b)
}

/// Index `a` such that `s[a..hi]` is `s[lo..hi]` without leading whitespace.
pub fn trim_start_bound(s: &[char], lo: usize, hi: usize) -> (a: usize)
    requires
        lo <= hi <= s@.len(),
    ensures
        lo <= a <= hi,
        s@.subrange(a as int, hi as int) == trim_start(s@.subrange(lo as int, hi as int)),
        forall|j: int| lo <= j < a ==> is_ws(#[trigger] s@[j]),
        a < hi ==> !is_ws(s@[a as int]),
{
    let mut a = lo;
    while a < hi && char_is_ws(s[a])
        invariant
            lo <= a <= hi <= s@.len(),
            forall|j: int| lo <= j < a ==> is_ws(#[trigger] s@[j]),
        decreases hi - a,
    {
        a = a + 1;
    }
    proof {
        let sub = s@.subrange(lo as int, hi as int);
        lemma_trim_start_at(sub, a - lo);
        assert(trim_start(sub) =~= s@.subrange(a as int, hi as int));
    }
    a
}

/// The first index in `[lo, hi)` holding `c`, as an index of `s`.
pub fn find_char_range(s: &[char], c: char, lo: usize, hi: usize) -> (r: Option<usize>)
    requires
        lo <= hi <= s@.len(),
    ensures
        match r {
            Some(k) => lo <= k < hi && find_char(s@.subrange(lo as int, hi as int), c) == Some(
                k - lo,
            ),
            None => find_char(s@.subrange(lo as int, hi as int), c) is None,
        },
{
    let ghost sub = s@.subrange(lo as int, hi as int);
    let ghost p = is_char_at(sub, c);
    let mut k = lo;
    while k < hi
        invariant
            lo <= k <= hi <= s@.len(),
            sub == s@.subrange(lo as int, hi as int),
            p == is_char_at(sub, c),
            forall|j: int| 0 <= j < k - lo ==> !#[trigger] p(j),
        decreases hi - k,
    {
        if s[k] == c {
            proof {
                assert(sub[k - lo] == c);
                lemma_first_at_is(sub.len() as int, p, 0, k - lo);
            }
            return Some(k);
        }
        proof {
            assert(sub[k - lo] != c);
        }
        k = k + 1;
    }
    proof {
        lemma_first_at_none(sub.len() as int, p, 0);
    }
    None
}

// ---------------------------------------------------------------------------
// Finding characters and patterns.
// ---------------------------------------------------------------------------

pub open spec fn is_char_at(s: Seq<char>, c: char) -> spec_fn(int) -> bool {
    |k: int| s[k] == c
}

/// The first index at or after `i` holding `c`.
pub open spec fn find_char_from(s: Seq<char>, c: char, i: int) -> Option<int> {
    first_at(s.len() as int, is_char_at(s, c), i)
}

/// The first index holding `c`.
pub open spec fn find_char(s: Seq<char>, c: char) -> Option<int> {
    find_char_from(s, c, 0)
}

pub fn find_char_exec(s: &[char], c: char, from: usize) -> (r: Option<usize>)
    requires
        from <= s@.len(),
    ensures
        match r {
            Some(k) => find_char_from(s@, c, from as int) == Some(k as int),
            None => find_char_from(s@, c, from as int) is None,
        },
{
    let ghost p = is_char_at(s@, c);
    let mut k = from;
    while k < s.len()
        invariant
            from <= k <= s@.len(),
            p == is_char_at(s@, c),
            forall|j: int| from <= j < k ==> !#[trigger] p(j),
        decreases s@.len() - k,
    {
        if s[k] == c {
            proof {
                lemma_first_at_is(s@.len() as int, p, from as int, k as int);
            }
            return Some(k);
        }
        k = k + 1;
    }
    proof {
        lemma_first_at_none(s@.len() as int, p, from as int);
    }
    None
}

/// Whether `pat` occurs in `s` starting at `i`.
pub open spec fn occurs_at(s: Seq<char>, pat: Seq<char>, i: int) -> bool {
    0 <= i && i + pat.len() <= s.len() && s.subrange(i, i + pat.len()) == pat
}

pub open spec fn occurs_at_fn(s: Seq<char>, pat: Seq<char>) -> spec_fn(int) -> bool {
    |k: int| occurs_at(s, pat, k)
}

/// The first index at or after `i` where `pat` occurs.
pub open spec fn find_seq_from(s: Seq<char>, pat: Seq<char>, i: int) -> Option<int> {
    first_at(s.len() as int, occurs_at_fn(s, pat), i)
}

pub open spec fn find_seq(s: Seq<char>, pat: Seq<char>) -> Option<int> {
    find_seq_from(s, pat, 0)
}

/// Whether `pat` occurs in `s` at `i`.
pub fn occurs_at_exec(s: &[char], pat: &[char], i: usize) -> (b: bool)
    ensures
        b == occurs_at(s@, pat@, i as int),
{
    if i > s.len() || pat.len() > s.len() - i {
        return false;
    }
    let mut j: usize = 0;
    while j < pat.len()
        invariant
            j <= pat@.len(),
            i + pat@.len() <= s@.len(),
            pat@.len() == pat.len(),
            s@.len() == s.len(),
            forall|t: int| 0 <= t < j ==> s@[i + t] == pat@[t],
        decreases pat@.len() - j,
    {
        if s[i + j] != pat[j] {
            assert(s@.subrange(i as int, i + pat@.len())[j as int] != pat@[j as int]);
            return false;
        }
        j = j + 1;
    }
    assert(s@.subrange(i as int, i + pat@.len()) =~= pat@);
    true
}

pub fn find_seq_exec(s: &[char], pat: &[char], from: usize) -> (r: Option<usize>)
    requires
        from <= s@.len(),
    ensures
        match r {
            Some(k) => find_seq_from(s@, pat@, from as int) == Some(k as int),
            None => find_seq_from(s@, pat@, from as int) is None,
        },
{
    let ghost p = occurs_at_fn(s@, pat@);
    let mut k = from;
    while k < s.len()
        invariant
            from <= k <= s@.len(),
            p == occurs_at_fn(s@, pat@),
            forall|j: int| from <= j < k ==> !#[trigger] p(j),
        decreases s@.len() - k,
    {
        if occurs_at_exec(s, pat, k) {
            proof {
                lemma_first_at_is(s@.len() as int, p, from as int, k as int);
            }
            return Some(k);
        }
        k = k + 1;
    }
    proof {
        lemma_first_at_none(s@.len() as int, p, from as int);
    }
    None
}

// ---------------------------------------------------------------------------
// Collapsing whitespace: the words of `s` joined by single spaces
// (`split_whitespace` followed by `join(" ")`).
// ---------------------------------------------------------------------------

/// Left fold over `s`: the text so far and whether a separator is owed
/// before the next word.
pub open spec fn collapse_state(s: Seq<char>) -> (Seq<char>, bool)
    decreases s.len(),
{
    if s.len() == 0 {
        (Seq::empty(), false)
    } else {
        let (o, pending) = collapse_state(s.drop_last());
        let c = s.last();
        if is_ws(c) {
            (o, o.len() > 0)
        } else if pending {
            (o.push(' ').push(c), false)
        } else {
            (o.push(c), false)
        }
    }
}

/// The words of `s` (maximal runs of non-whitespace) joined by one space.
pub open spec fn collapse_ws(s: Seq<char>) -> Seq<char> {
    collapse_state(s).0
}

/// Whether `t` is made of words separated by single spaces: no whitespace
/// but `' '`, no leading, trailing or doubled space.
pub open spec fn is_collapsed(t: Seq<char>) -> bool {
    &&& forall|i: int| 0 <= i < t.len() && is_ws(#[trigger] t[i]) ==> t[i] == ' '
    &&& t.len() > 0 ==> !is_ws(t[0]) && !is_ws(t.last())
    &&& forall|i: int| 0 <= i < t.len() - 1 && #[trigger] t[i] == ' ' ==> t[i + 1] != ' '
}

/// Every character of `collapse_ws(s)` is a space or a character of `s`.
pub open spec fn drawn_from(t: Seq<char>, s: Seq<char>) -> bool {
    forall|i: int| 0 <= i < t.len() ==> #[trigger] t[i] == ' ' || s.contains(t[i])
}

pub proof fn lemma_collapse_state(s: Seq<char>)
    ensures
        is_collapsed(collapse_state(s).0),
        drawn_from(collapse_state(s).0, s),
        collapse_state(s).1 ==> collapse_state(s).0.len() > 0,
    decreases s.len(),
{
    if s.len() > 0 {
        let s0 = s.drop_last();
        lemma_collapse_state(s0);
        let (o, pending) = collapse_state(s0);
        let c = s.last();
        assert forall|x: char| s0.contains(x) implies s.contains(x) by {
            let k = choose|k: int| 0 <= k < s0.len() && s0[k] == x;
            assert(s[k] == x);
        }
        assert(s.contains(c)) by {
            assert(s[s.len() - 1] == c);
        }
        if !is_ws(c) {
            let t = collapse_state(s).0;
            if pending {
                assert(t =~= o.push(' ').push(c));
            } else {
                assert(t =~= o.push(c));
            }
            assert forall|i: int| 0 <= i < t.len() implies #[trigger] t[i] == ' ' || s.contains(t[i]) by {
                if i < o.len() {
                    assert(t[i] == o[i]);
                }
            }
        }
    }
}

/// Collapses the whitespace of `s[lo..hi]`.
pub fn collapse_ws_exec(s: &[char], lo: usize, hi: usize) -> (out: Vec<char>)
    requires
        lo <= hi <= s@.len(),
    ensures
        out@ == collapse_ws(s@.subrange(lo as int, hi as int)),
{
    let mut out: Vec<char> = Vec::new();
    let mut pending = false;
    let mut i = lo;
    while i < hi
        invariant
            lo <= i <= hi <= s@.len(),
            (out@, pending) == collapse_state(s@.subrange(lo as int, i as int)),
        decreases hi - i,
    {
        let c = s[i];
        proof {
            let sub = s@.subrange(lo as int, i + 1);
            assert(sub.drop_last() =~= s@.subrange(lo as int, i as int));
            assert(sub.last() == c);
        }
        if char_is_ws(c) {
            pending = out.len() > 0;
        } else {
            if pending {
                out.push(' ');
            }
            out.push(c);
            pending = false;
        }
        i = i + 1;
    }
    out
}

// ---------------------------------------------------------------------------
// UTF-8 lengths.
// ---------------------------------------------------------------------------

/// Bytes taken by `c` in UTF-8.
pub open spec fn utf8_char_len(c: char) -> nat {
    let u = c as u32;
    if u < 0x80 {
        1
    } else if u < 0x800 {
        2
    } else if u < 0x10000 {
        3
    } else {
        4
    }
}

pub fn utf8_char_len_exec(c: char) -> (n: usize)
    ensures
        n == utf8_char_len(c),
{
    let u = c as u32;
    if u < 0x80 {
        1
    } else if u < 0x800 {
        2
    } else if u < 0x10000 {
        3
    } else {
        4
    }
}

/// Bytes taken by `s` in UTF-8.
pub open spec fn utf8_len(s: Seq<char>) -> nat
    decreases s.len(),
{
    if s.len() == 0 {
        0
    } else {
        utf8_len(s.drop_last()) + utf8_char_len(s.last())
    }
}

// ---------------------------------------------------------------------------
// Small character maps.
// ---------------------------------------------------------------------------

pub open spec fn ascii_lower(c: char) -> char {
    if 'A' <= c && c <= 'Z' {
        ((c as u32) + 32) as char
    } else {
        c
    }
}

pub fn ascii_lower_exec(c: char) -> (r: char)
    ensures
        r == ascii_lower(c),
{
    if 'A' <= c && c <= 'Z' {
        let u = (c as u8) + 32;
        u as char
    } else {
        c
    }
}

/// Whether `s` begins with `pat`.
pub open spec fn starts_with(s: Seq<char>, pat: Seq<char>) -> bool {
    pat.len() <= s.len() && s.subrange(0, pat.len() as int) == pat
}

// ---------------------------------------------------------------------------
// Conversions.
// ---------------------------------------------------------------------------

/// Appends one character to a `String` (std's `String::push`).
/// Trusted: the string's characters afterwards are the old ones followed by `c`.
#[verifier::external_body]
pub(crate) fn push_char(s: &mut String, c: char)
    ensures
        final(s)@ == old(s)@.push(c),
{
    s.push(c)
}

/// The characters of a string slice, in order.
pub fn chars_of(s: &str) -> (v: Vec<char>)
    ensures
        v@ == s@,
{
    let mut v: Vec<char> = Vec::new();
    for c in iter: s.chars()
        invariant
            v@ == iter.seq().take(iter.index() as int),
    {
        v.push(c);
    }
    v
}

/// A `String` holding exactly the given characters.
pub fn string_of(v: &[char]) -> (s: String)
    ensures
        s@ == v@,
{
    let mut s = String::new();
    let mut i: usize = 0;
    while i < v.len()
        invariant
            i <= v.len(),
            s@ == v@.take(i as int),
        decreases v.len() - i,
    {
        push_char(&mut s, v[i]);
        i = i + 1;
    }
    s
}

/// The characters `s[lo..hi]` as a new vector.
pub fn copy_range(s: &[char], lo: usize, hi: usize) -> (v: Vec<char>)
    requires
        lo <= hi <= s@.len(),
    ensures
        v@ == s@.subrange(lo as int, hi as int),
{
    let mut v: Vec<char> = Vec::new();
    let mut i = lo;
    while i < hi
        invariant
            lo <= i <= hi <= s@.len(),
            v@ == s@.subrange(lo as int, i as int),
        decreases hi - i,
    {
        v.push(s[i]);
        i = i + 1;
    }
    v
}

/// Appends all of `src` to `dst`.
pub fn extend_chars(dst: &mut Vec<char>, src: &[char])
    ensures
        final(dst)@ == old(dst)@ + src@,
{
    let mut i: usize = 0;
    while i < src.len()
        invariant
            i <= src@.len(),
            dst@ == old(dst)@ + src@.take(i as int),
        decreases src@.len() - i,
    {
        dst.push(src[i]);
        i = i + 1;
        assert(src@.take(i as int) =~= src@.take(i - 1) .push(src@[i - 1]));
    }
    assert(src@.take(src@.len() as int) =~= src@);
}

// ---------------------------------------------------------------------------
// Lines (as `str::lines` splits them).
// ---------------------------------------------------------------------------

/// `s` without one trailing carriage return.
pub open spec fn strip_cr(s: Seq<char>) -> Seq<char> {
    if s.len() > 0 && s.last() == '\r' {
        s.drop_last()
    } else {
        s
    }
}

/// The lines of `s`: split after each `\n`, each line ending `\n` losing it
/// and then one `\r`; a final line without `\n` is kept as it is; no line
/// follows a final `\n`.
pub open spec fn lines_of(s: Seq<char>) -> Seq<Seq<char>>
    decreases s.len(),
{
    if s.len() == 0 {
        Seq::empty()
    } else {
        match find_char(s, '\n') {
            Some(k) => if 0 <= k < s.len() {
                seq![strip_cr(s.take(k))] + lines_of(s.skip(k + 1))
            } else {
                Seq::empty()
            },
            None => seq![s],
        }
    }
}

/// The first line of `s[pos..]`: its bounds in `s` and where the next line
/// starts.
pub fn next_line(s: &[char], pos: usize) -> (r: (usize, usize, usize))
    requires
        pos < s@.len(),
    ensures
        pos <= r.0 == pos,
        r.0 <= r.1 <= r.2 <= s@.len(),
        r.2 > pos,
        lines_of(s@.skip(pos as int)) == seq![s@.subrange(r.0 as int, r.1 as int)] + lines_of(
            s@.skip(r.2 as int),
        ),
{
    let ghost t = s@.skip(pos as int);
    let f = find_char_range(s, '\n', pos, s.len());
    assert(s@.subrange(pos as int, s@.len() as int) =~= t);
    match f {
        Some(k) => {
            proof {
                lemma_first_at(t.len() as int, is_char_at(t, '\n'), 0);
                assert(t.take(k - pos) =~= s@.subrange(pos as int, k as int));
                assert(t.skip(k - pos + 1) =~= s@.skip(k + 1));
            }
            let e = if k > pos && s[k - 1] == '\r' {
                k - 1
            } else {
                k
            };
            proof {
                let line = s@.subrange(pos as int, k as int);
                if k > pos && s@[k - 1] == '\r' {
                    assert(strip_cr(line) =~= s@.subrange(pos as int, e as int));
                } else {
                    assert(strip_cr(line) =~= s@.subrange(pos as int, e as int));
                }
            }
            (pos, e, k + 1)
        },
        None => {
            proof {
                assert(s@.skip(s@.len() as int) =~= Seq::<char>::empty());
                assert(lines_of(Seq::<char>::empty()) =~= Seq::<Seq<char>>::empty());
                assert(seq![t] + Seq::<Seq<char>>::empty() =~= seq![t]);
            }
            (pos, s.len(), s.len())
        },
    }
}

/// Appends the characters of `s` to `dst`.
pub fn push_str(dst: &mut Vec<char>, s: &str)
    ensures
        final(dst)@ == old(dst)@ + s@,
{
    let cs = chars_of(s);
    extend_chars(dst, &cs);
}

} // verus!
