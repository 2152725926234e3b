//! Character-level text model: whitespace, trimming, searching, splitting
//! and joining, UTF-8 widths and decimal numbers, over `Seq<char>`.
use vstd::prelude::*;

verus! {

// ---------------------------------------------------------------------------
// Strings and character vectors
// ---------------------------------------------------------------------------

/// Appends one character to a string.
/// Calls `String::push`, which std documents as appending the character to
/// the end of the string; the contract states exactly that over the views.
#[verifier::external_body]
pub(crate) fn string_push(s: &mut String, c: char)
    ensures
        final(s)@ == old(s)@.push(c),
{
    s.push(c);
}

/// The characters of a string slice, in order.
pub fn to_chars(s: &str) -> (v: Vec<char>)
    ensures
        v@ == s@,
{
    let mut v: Vec<char> = Vec::new();
    for c in it: s.chars()
        invariant
            v@ == it.seq().take(it.index() as int),
            it.seq() == s@,
    {
        v.push(c);
    }
    v
}

/// A string holding the given characters.
pub fn to_string(v: &Vec<char>) -> (s: String)
    ensures
        s@ == v@,
{
    let mut s = String::new();
    let mut i: usize = 0;
    while i < v.len()
        invariant
            i <= v.len(),
            s@ == v@.take(i as int),
        decreases v.len() - i,
    {
        string_push(&mut s, v[i]);
        i += 1;
        assert(s@ =~= v@.take(i as int));
    }
    assert(v@.take(i as int) =~= v@);
    s
}

/// Appends all characters of `src` to `out`.
pub fn append(out: &mut Vec<char>, src: &Vec<char>)
    ensures
        final(out)@ == old(out)@ + src@,
{
    let mut i: usize = 0;
    while i < src.len()
        invariant
            i <= src.len(),
            out@ == old(out)@ + src@.take(i as int),
        decreases src.len() - i,
    {
        out.push(src[i]);
        i += 1;
        assert(out@ =~= old(out)@ + src@.take(i as int));
    }
    assert(src@.take(i as int) =~= src@);
}

/// Appends the characters of a string slice to `out`.
pub fn append_str(out: &mut Vec<char>, s: &str)
    ensures
        final(out)@ == old(out)@ + s@,
{
    let v = to_chars(s);
    append(out, &v);
}

/// The characters `s[lo..hi]` as a new vector.
pub fn slice(s: &Vec<char>, lo: usize, hi: usize) -> (r: Vec<char>)
    requires
        lo <= hi <= s.len(),
    ensures
        r@ == s@.subrange(lo as int, hi as int),
{
    let mut r: Vec<char> = Vec::new();
    let mut i = lo;
    while i < hi
        invariant
            lo <= i <= hi <= s.len(),
            r@ == s@.subrange(lo as int, i as int),
        decreases hi - i,
    {
        r.push(s[i]);
        i += 1;
        assert(r@ =~= s@.subrange(lo as int, i as int));
    }
    r
}

/// The one-character pattern `a`.
pub fn pattern1(a: char) -> (v: Vec<char>)
    ensures
        v@ == seq![a],
{
    let mut v = Vec::new();
    v.push(a);
    assert(v@ =~= seq![a]);
    v
}

pub fn pattern2(a: char, b: char) -> (v: Vec<char>)
    ensures
        v@ == seq![a, b],
{
    let mut v = Vec::new();
    v.push(a);
    v.push(b);
    assert(v@ =~= seq![a, b]);
    v
}

// ---------------------------------------------------------------------------
// Character classes and runs
// ---------------------------------------------------------------------------

/// Unicode `White_Space`, the set that `char::is_whitespace` tests.
pub open spec fn is_ws(c: char) -> bool {
    let u = c as u32;
    ||| 0x09 <= u <= 0x0d
    ||| u == 0x20
    ||| u == 0x85
    ||| u == 0xa0
    ||| u == 0x1680
    ||| 0x2000 <= u <= 0x200a
    ||| u == 0x2028
    ||| u == 0x2029
    ||| u == 0x202f
    ||| u == 0x205f
    ||| u == 0x3000
}

/// ASCII whitespace as `u8::is_ascii_whitespace` defines it.
pub open spec fn is_ascii_ws(c: char) -> bool {
    c == ' ' || c == '\t' || c == '\n' || c == '\x0C' || c == '\r'
}

pub fn is_whitespace(c: char) -> (b: bool)
    ensures
        b == is_ws(c),
{
    let u = c as u32;
    (0x09 <= u && u <= 0x0d) || u == 0x20 || u == 0x85 || u == 0xa0 || u == 0x1680 || (0x2000
        <= u && u <= 0x200a) || u == 0x2028 || u == 0x2029 || u == 0x202f || u == 0x205f || u
        == 0x3000
}

/// A class of characters that a run of characters is made of.
#[derive(Clone, Copy)]
pub enum CharClass {
    Whitespace,
    Is(char),
    Not(char),
    AsciiDigit,
}

pub open spec fn in_class(c: char, k: CharClass) -> bool {
    match k {
        CharClass::Whitespace => is_ws(c),
        CharClass::Is(x) => c == x,
        CharClass::Not(x) => c != x,
        CharClass::AsciiDigit => 48 <= (c as u32) <= 57,
    }
}

pub fn class_holds(c: char, k: CharClass) -> (b: bool)
    ensures
        b == in_class(c, k),
{
    match k {
        CharClass::Whitespace => is_whitespace(c),
        CharClass::Is(x) => c == x,
        CharClass::Not(x) => c != x,
        CharClass::AsciiDigit => 48 <= (c as u32) && (c as u32) <= 57,
    }
}

/// The end of the run of class-`k` characters that starts at index `i`.
pub open spec fn run_end(s: Seq<char>, i: int, k: CharClass) -> int
    decreases s.len() - i,
{
    if 0 <= i < s.len() && in_class(s[i], k) {
        run_end(s, i + 1, k)
    } else {
        i
    }
}

/// The start of the run of class-`k` characters that ends at index `j`.
pub open spec fn run_start(s: Seq<char>, j: int, k: CharClass) -> int
    decreases j,
{
    if 0 < j <= s.len() && in_class(s[j - 1], k) {
        run_start(s, j - 1, k)
    } else {
        j
    }
}

pub proof fn lemma_run_end(s: Seq<char>, i: int, k: CharClass)
    requires
        0 <= i <= s.len(),
    ensures
        i <= run_end(s, i, k) <= s.len(),
        forall|j: int| i <= j < run_end(s, i, k) ==> in_class(#[trigger] s[j], k),
        run_end(s, i, k) < s.len() ==> !in_class(s[run_end(s, i, k)], k),
    decreases s.len() - i,
{
    if i < s.len() && in_class(s[i], k) {
        lemma_run_end(s, i + 1, k);
    }
}

pub proof fn lemma_run_start(s: Seq<char>, j: int, k: CharClass)
    requires
        0 <= j <= s.len(),
    ensures
        0 <= run_start(s, j, k) <= j,
        forall|m: int| run_start(s, j, k) <= m < j ==> in_class(#[trigger] s[m], k),
        run_start(s, j, k) > 0 ==> !in_class(s[run_start(s, j, k) - 1], k),
    decreases j,
{
    if j > 0 && in_class(s[j - 1], k) {
        lemma_run_start(s, j - 1, k);
    }
}

/// Index just past the run of class-`k` characters starting at `i`.
pub fn scan_run(s: &Vec<char>, i: usize, k: CharClass) -> (r: usize)
    requires
        i <= s.len(),
    ensures
        r == run_end(s@, i as int, k),
        i <= r <= s.len(),
{
    proof {
        lemma_run_end(s@, i as int, k);
    }
    let mut j = i;
    while j < s.len() && class_holds(s[j], k)
        invariant
            i <= j <= s.len(),
            run_end(s@, i as int, k) == run_end(s@, j as int, k),
        decreases s.len() - j,
    {
        j += 1;
    }
    j
}

/// Index where the run of class-`k` characters ending at `j` starts.
pub fn scan_run_back(s: &Vec<char>, j: usize, k: CharClass) -> (r: usize)
    requires
        j <= s.len(),
    ensures
        r == run_start(s@, j as int, k),
        r <= j,
{
    proof {
        lemma_run_start(s@, j as int, k);
    }
    let mut m = j;
    while m > 0 && class_holds(s[m - 1], k)
        invariant
            m <= j <= s.len(),
            run_start(s@, j as int, k) == run_start(s@, m as int, k),
        decreases m,
    {
        m -= 1;
    }
    m
}

/// Whether every character is of class `k`.
pub open spec fn all_in(s: Seq<char>, k: CharClass) -> bool {
    forall|i: int| 0 <= i < s.len() ==> in_class(#[trigger] s[i], k)
}

pub fn all_of(s: &Vec<char>, lo: usize, k: CharClass) -> (b: bool)
    requires
        lo <= s.len(),
    ensures
        b == all_in(s@.skip(lo as int), k),
{
    let e = scan_run(s, lo, k);
    proof {
        lemma_run_end(s@, lo as int, k);
        if e < s.len() {
            assert(!in_class(s@.skip(lo as int)[e - lo], k));
        }
    }
    e == s.len()
}

// ---------------------------------------------------------------------------
// Trimming
// ---------------------------------------------------------------------------

/// The text without its leading whitespace (`str::trim_start`).
pub open spec fn trim_start(s: Seq<char>) -> Seq<char> {
    s.skip(run_end(s, 0, CharClass::Whitespace))
}

/// The text without its trailing whitespace (`str::trim_end`).
pub open spec fn trim_end(s: Seq<char>) -> Seq<char> {
    s.take(run_start(s, s.len() as int, CharClass::Whitespace))
}

/// The text without leading and trailing whitespace (`str::trim`).
pub open spec fn trim(s: Seq<char>) -> Seq<char> {
    trim_end(trim_start(s))
}

/// The text without the trailing characters equal to `c` (`str::trim_end_matches`).
pub open spec fn trim_end_char(s: Seq<char>, c: char) -> Seq<char> {
    s.take(run_start(s, s.len() as int, CharClass::Is(c)))
}

/// The text without leading and trailing characters equal to `c` (`str::trim_matches`).
pub open spec fn trim_char(s: Seq<char>, c: char) -> Seq<char> {
    trim_end_char(s.skip(run_end(s, 0, CharClass::Is(c))), c)
}

pub fn trimmed_start(s: &Vec<char>) -> (r: Vec<char>)
    ensures
        r@ == trim_start(s@),
{
    let a = scan_run(s, 0, CharClass::Whitespace);
    slice(s, a, s.len())
}

pub fn trimmed_end(s: &Vec<char>) -> (r: Vec<char>)
    ensures
        r@ == trim_end(s@),
{
    let b = scan_run_back(s, s.len(), CharClass::Whitespace);
    slice(s, 0, b)
}

pub fn trimmed(s: &Vec<char>) -> (r: Vec<char>)
    ensures
        r@ == trim(s@),
{
    let t = trimmed_start(s);
    trimmed_end(&t)
}

pub fn trimmed_end_char(s: &Vec<char>, c: char) -> (r: Vec<char>)
    ensures
        r@ == trim_end_char(s@, c),
{
    let b = scan_run_back(s, s.len(), CharClass::Is(c));
    slice(s, 0, b)
}

pub fn trimmed_char(s: &Vec<char>, c: char) -> (r: Vec<char>)
    ensures
        r@ == trim_char(s@, c),
{
    let a = scan_run(s, 0, CharClass::Is(c));
    let t = slice(s, a, s.len());
    trimmed_end_char(&t, c)
}

/// A text trims to nothing exactly when all of it is whitespace.
pub proof fn lemma_trim_blank(s: Seq<char>)
    ensures
        trim(s).len() == 0 <==> all_in(s, CharClass::Whitespace),
{
    let e = run_end(s, 0, CharClass::Whitespace);
    lemma_run_end(s, 0, CharClass::Whitespace);
    let t = s.skip(e);
    lemma_run_start(t, t.len() as int, CharClass::Whitespace);
    if e < s.len() {
        assert(t[0] == s[e]);
        assert(!in_class(t[0], CharClass::Whitespace));
        assert(run_start(t, t.len() as int, CharClass::Whitespace) > 0);
    } else {
        assert(t.len() == 0);
    }
}

/// Whether the text is empty once whitespace is trimmed.
pub fn is_blank(s: &Vec<char>) -> (b: bool)
    ensures
        b == (trim(s@).len() == 0),
{
    let t = trimmed(s);
    t.len() == 0
}

// ---------------------------------------------------------------------------
// Searching
// ---------------------------------------------------------------------------

/// Whether `p` occurs in `s` at index `j`.
pub open spec fn occurs_at(s: Seq<char>, p: Seq<char>, j: int) -> bool {
    0 <= j && j + p.len() <= s.len() && s.subrange(j, j + p.len()) == p
}

/// The first index at or after `j` where `p` occurs in `s` (`str::find`).
pub open spec fn find_from(s: Seq<char>, p: Seq<char>, j: int) -> Option<int>
    decreases s.len() + 1 - j,
{
    if j < 0 || j + p.len() > s.len() {
        None
    } else if occurs_at(s, p, j) {
        Some(j)
    } else {
        find_from(s, p, j + 1)
    }
}

pub proof fn lemma_find_from(s: Seq<char>, p: Seq<char>, j: int)
    requires
        0 <= j,
    ensures
        find_from(s, p, j) matches Some(m) ==> j <= m && m + p.len() <= s.len() && occurs_at(
            s,
            p,
            m,
        ),
    decreases s.len() + 1 - j,
{
    if j + p.len() <= s.len() && !occurs_at(s, p, j) {
        lemma_find_from(s, p, j + 1);
    }
}

/// The first occurrence at or after `j` is found.
pub proof fn lemma_find_from_first(s: Seq<char>, p: Seq<char>, j: int, m: int)
    requires
        0 <= j <= m,
        occurs_at(s, p, m),
        forall|k: int| j <= k < m ==> !occurs_at(s, p, k),
    ensures
        find_from(s, p, j) == Some(m),
    decreases m - j,
{
    if j < m {
        lemma_find_from_first(s, p, j + 1, m);
    }
}

/// Whether `p` occurs in the window `s[lo..hi]` at window index `j`.
pub fn occurs_in(s: &Vec<char>, lo: usize, hi: usize, p: &Vec<char>, j: usize) -> (b: bool)
    requires
        lo <= hi <= s.len(),
    ensures
        b == occurs_at(s@.subrange(lo as int, hi as int), p@, j as int),
{
    let ghost w = s@.subrange(lo as int, hi as int);
    if j > hi - lo || p.len() > hi - lo - j {
        return false;
    }
    let mut k: usize = 0;
    while k < p.len()
        invariant
            lo <= hi <= s.len(),
            j + p.len() <= hi - lo,
            w == s@.subrange(lo as int, hi as int),
            k <= p.len(),
            forall|m: int| 0 <= m < k ==> w[j + m] == p@[m],
        decreases p.len() - k,
    {
        if s[lo + j + k] != p[k] {
            assert(w.subrange(j as int, j + p.len())[k as int] != p@[k as int]);
            return false;
        }
        k += 1;
    }
    assert(w.subrange(j as int, j + p.len()) =~= p@);
    true
}

/// The first window index at or after `from` where `p` occurs in `s[lo..hi]`.
pub fn find_in(s: &Vec<char>, lo: usize, hi: usize, p: &Vec<char>, from: usize) -> (r: Option<
    usize,
>)
    requires
        lo <= hi <= s.len(),
        p.len() > 0,
    ensures
        r matches Some(m) ==> find_from(s@.subrange(lo as int, hi as int), p@, from as int) == Some(
            m as int,
        ),
        r is None ==> find_from(s@.subrange(lo as int, hi as int), p@, from as int) is None,
{
    let ghost w = s@.subrange(lo as int, hi as int);
    let mut j = from;
    while j <= hi - lo && p.len() <= hi - lo - j
        invariant
            lo <= hi <= s.len(),
            w == s@.subrange(lo as int, hi as int),
            from <= j,
            p.len() > 0,
            find_from(w, p@, from as int) == find_from(w, p@, j as int),
        decreases hi - lo + 1 - j,
    {
        if occurs_in(s, lo, hi, p, j) {
            return Some(j);
        }
        j += 1;
    }
    None
}

/// The text after the prefix `p`, when it starts with `p` (`str::strip_prefix`).
pub open spec fn strip_prefix(s: Seq<char>, p: Seq<char>) -> Option<Seq<char>> {
    if occurs_at(s, p, 0) {
        Some(s.skip(p.len() as int))
    } else {
        None
    }
}

pub fn starts_with(s: &Vec<char>, p: &Vec<char>) -> (b: bool)
    ensures
        b == occurs_at(s@, p@, 0),
{
    assert(s@.subrange(0, s@.len() as int) =~= s@);
    occurs_in(s, 0, s.len(), p, 0)
}

// ---------------------------------------------------------------------------
// Splitting and joining
// ---------------------------------------------------------------------------

/// The character sequences held by a vector of character vectors.
pub open spec fn views(v: Seq<Vec<char>>) -> Seq<Seq<char>> {
    Seq::new(v.len(), |i: int| v[i]@)
}

/// The pieces of `s` between occurrences of `c` (`str::split` on a char).
pub open spec fn split(s: Seq<char>, c: char) -> Seq<Seq<char>>
    decreases s.len(),
{
    let k = run_end(s, 0, CharClass::Not(c));
    if 0 <= k < s.len() {
        seq![s.take(k)] + split(s.skip(k + 1), c)
    } else {
        seq![s]
    }
}

/// A text splits into at least one piece.
pub proof fn lemma_split_len(s: Seq<char>, c: char)
    ensures
        split(s, c).len() >= 1,
{
}

/// `s` without one final carriage return.
pub open spec fn strip_cr(s: Seq<char>) -> Seq<char> {
    if s.len() > 0 && s.last() == '\r' {
        s.drop_last()
    } else {
        s
    }
}

/// The lines of a text as `str::lines` gives them: split at `\n`, a `\r`
/// just before a `\n` removed, and no empty line after a final `\n`.
pub open spec fn split_lines(s: Seq<char>) -> Seq<Seq<char>>
    decreases s.len(),
{
    let k = run_end(s, 0, CharClass::Not('\n'));
    if s.len() == 0 {
        seq![]
    } else if 0 <= k < s.len() {
        seq![strip_cr(s.take(k))] + split_lines(s.skip(k + 1))
    } else {
        seq![s]
    }
}

/// A line without `\n` followed by `\n` is the first line of the text.
pub proof fn lemma_split_lines_cons(a: Seq<char>, b: Seq<char>)
    requires
        !a.contains('\n'),
    ensures
        split_lines(a + seq!['\n'] + b) == seq![strip_cr(a)] + split_lines(b),
{
    let s = a + seq!['\n'] + b;
    lemma_run_end(s, 0, CharClass::Not('\n'));
    assert forall|j: int| 0 <= j < a.len() implies in_class(#[trigger] s[j], CharClass::Not('\n')) by {
        assert(s[j] == a[j]);
    }
    lemma_run_end_over(s, 0, a.len() as int, CharClass::Not('\n'));
    assert(s.take(a.len() as int) =~= a);
    assert(s.skip(a.len() + 1int) =~= b);
}

/// A non-empty text without `\n` is one line.
pub proof fn lemma_split_lines_single(a: Seq<char>)
    requires
        a.len() > 0,
        !a.contains('\n'),
    ensures
        split_lines(a) == seq![a],
{
    lemma_run_end(a, 0, CharClass::Not('\n'));
    let k = run_end(a, 0, CharClass::Not('\n'));
    if k < a.len() {
        assert(a[k] == '\n');
    }
}

/// A run of class-`k` characters from `i` up to a character outside the
/// class at `e` ends at `e`.
pub proof fn lemma_run_end_over(s: Seq<char>, i: int, e: int, k: CharClass)
    requires
        0 <= i <= e < s.len(),
        forall|j: int| i <= j < e ==> in_class(#[trigger] s[j], k),
        !in_class(s[e], k),
    ensures
        run_end(s, i, k) == e,
    decreases e - i,
{
    if i < e {
        lemma_run_end_over(s, i + 1, e, k);
    }
}

/// The pieces joined with a `\n` between each two (`join("\n")`).
pub open spec fn join_lines(ls: Seq<Seq<char>>) -> Seq<char>
    decreases ls.len(),
{
    if ls.len() == 0 {
        seq![]
    } else if ls.len() == 1 {
        ls[0]
    } else {
        join_lines(ls.drop_last()) + seq!['\n'] + ls.last()
    }
}

pub fn split_on(s: &Vec<char>, c: char) -> (r: Vec<Vec<char>>)
    ensures
        views(r@) == split(s@, c),
{
    let mut r: Vec<Vec<char>> = Vec::new();
    let mut pos: usize = 0;
    assert(views(r@) =~= Seq::<Seq<char>>::empty());
    assert(s@.skip(0) =~= s@);
    loop
        invariant
            pos <= s.len(),
            views(r@) + split(s@.skip(pos as int), c) == split(s@, c),
        decreases s.len() - pos,
    {
        let ghost rest = s@.skip(pos as int);
        let e = scan_run(s, pos, CharClass::Not(c));
        proof {
            lemma_run_end(s@, pos as int, CharClass::Not(c));
            lemma_run_shift(s@, pos as int, CharClass::Not(c));
        }
        if e < s.len() {
            let piece = slice(s, pos, e);
            let ghost old_r = views(r@);
            r.push(piece);
            assert(rest.take(e - pos) =~= piece@);
            assert(rest.skip(e - pos + 1) =~= s@.skip(e + 1));
            assert(views(r@) =~= old_r.push(piece@));
            pos = e + 1;
            assert(views(r@) + split(s@.skip(pos as int), c) =~= split(s@, c));
        } else {
            let piece = slice(s, pos, s.len());
            let ghost old_r = views(r@);
            assert(piece@ =~= rest);
            r.push(piece);
            assert(views(r@) =~= old_r.push(piece@));
            assert(views(r@) =~= split(s@, c));
            return r;
        }
    }
}

/// The run functions on a suffix agree with the run functions on the whole text.
pub proof fn lemma_run_shift(s: Seq<char>, pos: int, k: CharClass)
    requires
        0 <= pos <= s.len(),
    ensures
        run_end(s.skip(pos), 0, k) == run_end(s, pos, k) - pos,
{
    lemma_run_shift_at(s, pos, 0, k);
}

proof fn lemma_run_shift_at(s: Seq<char>, pos: int, i: int, k: CharClass)
    requires
        0 <= pos <= s.len(),
        0 <= i <= s.len() - pos,
    ensures
        run_end(s.skip(pos), i, k) == run_end(s, pos + i, k) - pos,
    decreases s.len() - pos - i,
{
    if i < s.len() - pos {
        lemma_run_shift_at(s, pos, i + 1, k);
    }
}

/// The lines of a text (`str::lines`).
pub fn lines_of(s: &Vec<char>) -> (r: Vec<Vec<char>>)
    ensures
        views(r@) == split_lines(s@),
{
    let mut r: Vec<Vec<char>> = Vec::new();
    let mut pos: usize = 0;
    assert(views(r@) =~= Seq::<Seq<char>>::empty());
    assert(s@.skip(0) =~= s@);
    while pos < s.len()
        invariant
            pos <= s.len(),
            views(r@) + split_lines(s@.skip(pos as int)) == split_lines(s@),
        decreases s.len() - pos,
    {
        let ghost rest = s@.skip(pos as int);
        let e = scan_run(s, pos, CharClass::Not('\n'));
        proof {
            lemma_run_end(s@, pos as int, CharClass::Not('\n'));
            lemma_run_shift(s@, pos as int, CharClass::Not('\n'));
        }
        let ghost old_r = views(r@);
        if e < s.len() {
            let end = if e > pos && s[e - 1] == '\r' {
                e - 1
            } else {
                e
            };
            let piece = slice(s, pos, end);
            assert(strip_cr(rest.take(e - pos)) =~= piece@);
            assert(rest.skip(e - pos + 1) =~= s@.skip(e + 1));
            r.push(piece);
            assert(views(r@) =~= old_r.push(piece@));
            pos = e + 1;
            assert(views(r@) + split_lines(s@.skip(pos as int)) =~= split_lines(s@));
        } else {
            let piece = slice(s, pos, s.len());
            assert(piece@ =~= rest);
            r.push(piece);
            assert(views(r@) =~= old_r.push(piece@));
            pos = s.len();
            assert(s@.skip(pos as int) =~= Seq::<char>::empty());
            assert(views(r@) + split_lines(s@.skip(pos as int)) =~= split_lines(s@));
        }
    }
    assert(s@.skip(pos as int) =~= Seq::<char>::empty());
    assert(views(r@) + split_lines(s@.skip(pos as int)) =~= views(r@));
    r
}

/// The pieces joined with `\n` between each two.
pub fn join_with_newlines(ls: &Vec<Vec<char>>) -> (r: Vec<char>)
    ensures
        r@ == join_lines(views(ls@)),
{
    let mut r: Vec<char> = Vec::new();
    let mut i: usize = 0;
    while i < ls.len()
        invariant
            i <= ls.len(),
            r@ == join_lines(views(ls@).take(i as int)),
        decreases ls.len() - i,
    {
        let ghost prev = views(ls@).take(i as int);
        if i > 0 {
            r.push('\n');
        }
        append(&mut r, &ls[i]);
        i += 1;
        assert(views(ls@).take(i as int).drop_last() =~= prev);
        assert(views(ls@).take(i as int).last() == ls[i - 1]@);
        if i == 1 {
            assert(r@ =~= join_lines(views(ls@).take(i as int)));
        }
    }
    assert(views(ls@).take(i as int) =~= views(ls@));
    r
}

// ---------------------------------------------------------------------------
// UTF-8 widths and byte offsets
// ---------------------------------------------------------------------------

/// The number of bytes of the UTF-8 encoding of `c`.
pub open spec fn char_width(c: char) -> nat {
    let u = c as u32;
    if u < 0x80 {
        1
    } else if u < 0x800 {
        2
    } else if u < 0x10000 {
        3
    } else {
        4
    }
}

/// The number of bytes of the UTF-8 encoding of `s` (`str::len`).
pub open spec fn utf8_len(s: Seq<char>) -> nat
    decreases s.len(),
{
    if s.len() == 0 {
        0
    } else {
        utf8_len(s.drop_last()) + char_width(s.last())
    }
}

pub fn width_of(c: char) -> (w: usize)
    ensures
        w == char_width(c),
{
    let u = c as u32;
    if u < 0x80 {
        1
    } else if u < 0x800 {
        2
    } else if u < 0x10000 {
        3
    } else {
        4
    }
}

/// The width of a character is the length of its UTF-8 encoding.
proof fn lemma_char_width_encoding(c: char)
    ensures
        char_width(c) == vstd::utf8::encode_scalar(c as u32).len(),
{
}

/// Encoding joined texts is joining their encodings.
pub proof fn lemma_encode_concat(a: Seq<char>, b: Seq<char>)
    ensures
        vstd::utf8::encode_utf8(a + b) == vstd::utf8::encode_utf8(a) + vstd::utf8::encode_utf8(b),
    decreases a.len(),
{
    if a.len() == 0 {
        assert(a + b =~= b);
        assert(vstd::utf8::encode_utf8(a) + vstd::utf8::encode_utf8(b) =~= vstd::utf8::encode_utf8(
            b,
        ));
    } else {
        lemma_encode_concat(a.drop_first(), b);
        assert((a + b).drop_first() =~= a.drop_first() + b);
        assert((a + b)[0] == a[0]);
        assert(vstd::utf8::encode_utf8(a + b) =~= vstd::utf8::encode_utf8(a)
            + vstd::utf8::encode_utf8(b));
    }
}

/// Byte offsets are those of the UTF-8 encoding: the byte length of a text
/// is the length of its UTF-8 encoding, and the encoding of a text cut at a
/// character is the encoding of the first part followed by that of the rest.
pub proof fn law_utf8_len_is_encoding_length(s: Seq<char>)
    ensures
        utf8_len(s) == vstd::utf8::encode_utf8(s).len(),
        forall|m: int|
            0 <= m <= s.len() ==> vstd::utf8::encode_utf8(s) == vstd::utf8::encode_utf8(
                #[trigger] s.take(m),
            ) + vstd::utf8::encode_utf8(s.skip(m)),
    decreases s.len(),
{
    assert forall|m: int| 0 <= m <= s.len() implies vstd::utf8::encode_utf8(s)
        == vstd::utf8::encode_utf8(#[trigger] s.take(m)) + vstd::utf8::encode_utf8(s.skip(m)) by {
        assert(s =~= s.take(m) + s.skip(m));
        lemma_encode_concat(s.take(m), s.skip(m));
    }
    if s.len() > 0 {
        law_utf8_len_is_encoding_length(s.drop_last());
        let last = seq![s.last()];
        assert(s =~= s.drop_last() + last);
        lemma_encode_concat(s.drop_last(), last);
        lemma_char_width_encoding(s.last());
        assert(last.drop_first() =~= Seq::<char>::empty());
        assert(last[0] == s.last());
        assert(vstd::utf8::encode_utf8(Seq::<char>::empty()).len() == 0);
        assert(vstd::utf8::encode_utf8(last).len() == vstd::utf8::encode_scalar(s.last() as u32).len());
    }
}

pub proof fn lemma_utf8_len_take(s: Seq<char>, m: int)
    requires
        0 <= m < s.len(),
    ensures
        utf8_len(s.take(m + 1)) == utf8_len(s.take(m)) + char_width(s[m]),
{
    assert(s.take(m + 1).drop_last() =~= s.take(m));
}

pub proof fn lemma_utf8_len_mono(s: Seq<char>, a: int, b: int)
    requires
        0 <= a <= b <= s.len(),
    ensures
        utf8_len(s.take(a)) + (b - a) <= utf8_len(s.take(b)),
    decreases b - a,
{
    if a < b {
        lemma_utf8_len_mono(s, a, b - 1);
        lemma_utf8_len_take(s, b - 1);
    }
}

pub proof fn lemma_utf8_len_bound(s: Seq<char>)
    ensures
        utf8_len(s) <= 4 * s.len(),
    decreases s.len(),
{
    if s.len() > 0 {
        lemma_utf8_len_bound(s.drop_last());
    }
}

/// The UTF-8 byte width of `s[..k]`.
pub fn utf8_width(s: &Vec<char>, k: usize) -> (w: u128)
    requires
        k <= s.len(),
    ensures
        w == utf8_len(s@.take(k as int)),
{
    let mut w: u128 = 0;
    let mut i: usize = 0;
    while i < k
        invariant
            i <= k <= s.len(),
            w == utf8_len(s@.take(i as int)),
        decreases k - i,
    {
        proof {
            lemma_utf8_len_take(s@, i as int);
            lemma_utf8_len_bound(s@.take(i as int));
        }
        w = w + width_of(s[i]) as u128;
        i += 1;
    }
    w
}

/// The character index whose UTF-8 byte offset in `s` is `b`, searching from
/// character index `m`; `None` when `b` is no character boundary.
pub open spec fn char_index_from(s: Seq<char>, b: int, m: int) -> Option<int>
    decreases s.len() - m,
{
    if m < 0 || m > s.len() || utf8_len(s.take(m)) > b {
        None
    } else if utf8_len(s.take(m)) == b {
        Some(m)
    } else if m == s.len() {
        None
    } else {
        char_index_from(s, b, m + 1)
    }
}

/// The character index at UTF-8 byte offset `b`, when `b` is a character boundary.
pub open spec fn char_index(s: Seq<char>, b: int) -> Option<int> {
    char_index_from(s, b, 0)
}

pub proof fn lemma_char_index_from(s: Seq<char>, b: int, m: int)
    requires
        0 <= m <= s.len(),
    ensures
        char_index_from(s, b, m) matches Some(k) ==> m <= k <= s.len() && utf8_len(s.take(k))
            == b,
        (exists|k: int| m <= k <= s.len() && utf8_len(#[trigger] s.take(k)) == b)
            ==> char_index_from(s, b, m) is Some,
    decreases s.len() - m,
{
    if utf8_len(s.take(m)) < b && m < s.len() {
        lemma_char_index_from(s, b, m + 1);
        assert forall|k: int| m <= k <= s.len() && utf8_len(#[trigger] s.take(k)) == b implies m
            + 1 <= k by {
            if k == m {
            }
        }
    }
    if utf8_len(s.take(m)) > b {
        assert forall|k: int| m <= k <= s.len() implies utf8_len(#[trigger] s.take(k)) != b by {
            lemma_utf8_len_mono(s, m, k);
        }
    }
}

/// The character index of UTF-8 byte offset `b` in `s`, when it is a boundary.
pub fn byte_to_char_index(s: &Vec<char>, b: u128) -> (r: Option<usize>)
    ensures
        r matches Some(k) ==> char_index(s@, b as int) == Some(k as int),
        r is None ==> char_index(s@, b as int) is None,
{
    let mut m: usize = 0;
    let mut acc: u128 = 0;
    while m < s.len() && acc < b
        invariant
            m <= s.len(),
            acc == utf8_len(s@.take(m as int)),
            acc <= b,
            char_index(s@, b as int) == char_index_from(s@, b as int, m as int),
        decreases s.len() - m,
    {
        proof {
            lemma_utf8_len_take(s@, m as int);
        }
        let w = width_of(s[m]) as u128;
        if w > b - acc {
            assert(char_index_from(s@, b as int, m as int + 1) is None);
            return None;
        }
        acc = acc + w;
        m += 1;
    }
    if acc == b {
        Some(m)
    } else {
        None
    }
}

// ---------------------------------------------------------------------------
// Decimal numbers
// ---------------------------------------------------------------------------

/// The ASCII digit for `d < 10`.
pub open spec fn digit_char(d: nat) -> char {
    ((d + 48) as u32) as char
}

/// The decimal notation of `n`, without leading zeros.
pub open spec fn decimal(n: nat) -> Seq<char>
    decreases n,
{
    if n < 10 {
        seq![digit_char(n)]
    } else {
        decimal(n / 10).push(digit_char(n % 10))
    }
}

/// The value of a string of ASCII digits.
pub open spec fn digits_value(s: Seq<char>) -> nat
    decreases s.len(),
{
    if s.len() == 0 {
        0
    } else {
        digits_value(s.drop_last()) * 10 + ((s.last() as u32) - 48) as nat
    }
}

/// Appends the decimal notation of `n`.
pub fn push_decimal(out: &mut Vec<char>, n: u64)
    ensures
        final(out)@ == old(out)@ + decimal(n as nat),
    decreases n,
{
    if n >= 10 {
        push_decimal(out, n / 10);
    }
    let d = (n % 10) as u8;
    let c = (d + 48) as char;
    out.push(c);
    assert(out@ =~= old(out)@ + decimal(n as nat));
}

} // verus!
