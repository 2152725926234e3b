//! Inline Markdown: emphasis, strong emphasis, strikethrough, code spans,
//! links and images, with HTML escaping of all other text.
use vstd::prelude::*;

use crate::Options;
use crate::text::{pattern1, pattern2, append_str, find_from, find_in, occurs_at, occurs_in, to_chars, to_string};

verus! {

// ---------------------------------------------------------------------------
// Escaping
// ---------------------------------------------------------------------------

/// The HTML for one character of text: `&`, `<`, `>` and `"` as entities.
pub open spec fn escape_char(c: char) -> Seq<char> {
    if c == '&' {
        "&amp;"@
    } else if c == '<' {
        "&lt;"@
    } else if c == '>' {
        "&gt;"@
    } else if c == '"' {
        "&quot;"@
    } else {
        seq![c]
    }
}

/// The HTML for a text: each character escaped.
pub open spec fn escape_text(s: Seq<char>) -> Seq<char>
    decreases s.len(),
{
    if s.len() == 0 {
        Seq::empty()
    } else {
        escape_text(s.drop_last()) + escape_char(s.last())
    }
}

fn push_escaped_char(out: &mut Vec<char>, c: char)
    ensures
        final(out)@ == old(out)@ + escape_char(c),
{
    if c == '&' {
        append_str(out, "&amp;");
    } else if c == '<' {
        append_str(out, "&lt;");
    } else if c == '>' {
        append_str(out, "&gt;");
    } else if c == '"' {
        append_str(out, "&quot;");
    } else {
        out.push(c);
        assert(out@ =~= old(out)@ + seq![c]);
    }
}

/// Appends the escaped text `s[lo..hi]`.
pub fn push_escaped(out: &mut Vec<char>, s: &Vec<char>, lo: usize, hi: usize)
    requires
        lo <= hi <= s.len(),
    ensures
        final(out)@ == old(out)@ + escape_text(s@.subrange(lo as int, hi as int)),
{
    let mut i = lo;
    while i < hi
        invariant
            lo <= i <= hi <= s.len(),
            out@ == old(out)@ + escape_text(s@.subrange(lo as int, i as int)),
        decreases hi - i,
    {
        let ghost before = out@;
        push_escaped_char(out, s[i]);
        i += 1;
        assert(s@.subrange(lo as int, i as int).drop_last() =~= s@.subrange(lo as int, i - 1));
        assert(out@ =~= old(out)@ + escape_text(s@.subrange(lo as int, i as int)));
    }
}

/// Escapes `&`, `<`, `>` and `"` in a text for use in HTML.
pub fn escape(s: &str) -> (r: String)
    ensures
        r@ == escape_text(s@),
{
    let v = to_chars(s);
    let mut out: Vec<char> = Vec::new();
    push_escaped(&mut out, &v, 0, v.len());
    assert(v@.subrange(0, v@.len() as int) =~= v@);
    assert(out@ =~= escape_text(s@));
    to_string(&out)
}

// ---------------------------------------------------------------------------
// Inline spans
// ---------------------------------------------------------------------------

/// The kinds of inline markup.
#[derive(Clone, Copy)]
pub enum InlineKind {
    Image,
    Link,
    Strong,
    Emphasis,
    Strikethrough,
    Code,
}

/// A recognised inline span at the start of a text: the inner text (label
/// or body), the URL of a link or image, and the number of characters used.
pub struct Span {
    pub kind: InlineKind,
    pub inner_start: int,
    pub inner_end: int,
    pub url_start: int,
    pub url_end: int,
    pub used: int,
}

/// A link or image: `prefix label](url)`, the label ending at the first `](`
/// and the URL at the first `)` after it.
pub open spec fn link_span(t: Seq<char>, prefix: Seq<char>, kind: InlineKind) -> Option<Span> {
    if !occurs_at(t, prefix, 0) {
        None
    } else {
        match find_from(t, seq![']', '('], prefix.len() as int) {
            None => None,
            Some(e) => match find_from(t, seq![')'], e + 2) {
                None => None,
                Some(u) => Some(
                    Span {
                        kind,
                        inner_start: prefix.len() as int,
                        inner_end: e,
                        url_start: e + 2,
                        url_end: u,
                        used: u + 1,
                    },
                ),
            },
        }
    }
}

/// A body between two copies of `marker`, ending at the next copy; an
/// empty body is no span.
pub open spec fn wrapped_span(t: Seq<char>, marker: Seq<char>, kind: InlineKind) -> Option<Span> {
    if !occurs_at(t, marker, 0) {
        None
    } else {
        match find_from(t, marker, marker.len() as int) {
            None => None,
            Some(e) => if e == marker.len() {
                None
            } else {
                Some(
                    Span {
                        kind,
                        inner_start: marker.len() as int,
                        inner_end: e,
                        url_start: 0,
                        url_end: 0,
                        used: e + marker.len(),
                    },
                )
            },
        }
    }
}

/// The first kind of span, in order of precedence, that the text starts with:
/// image, link, `**`, `__`, `~~` (with GitHub-Flavored Markdown), `*`, `_`, backticks.
#[verifier::opaque]
pub open spec fn span_at(t: Seq<char>, gfm: bool) -> Option<Span> {
    let image = link_span(t, seq!['!', '['], InlineKind::Image);
    let link = link_span(t, seq!['['], InlineKind::Link);
    let strong1 = wrapped_span(t, seq!['*', '*'], InlineKind::Strong);
    let strong2 = wrapped_span(t, seq!['_', '_'], InlineKind::Strong);
    let strike = if gfm {
        wrapped_span(t, seq!['~', '~'], InlineKind::Strikethrough)
    } else {
        None
    };
    let em1 = wrapped_span(t, seq!['*'], InlineKind::Emphasis);
    let em2 = wrapped_span(t, seq!['_'], InlineKind::Emphasis);
    let code = wrapped_span(t, seq!['`'], InlineKind::Code);
    if image is Some {
        image
    } else if link is Some {
        link
    } else if strong1 is Some {
        strong1
    } else if strong2 is Some {
        strong2
    } else if strike is Some {
        strike
    } else if em1 is Some {
        em1
    } else if em2 is Some {
        em2
    } else {
        code
    }
}

/// A span lies within its text, and its inner text is shorter than the text.
pub open spec fn span_fits(t: Seq<char>, sp: Span) -> bool {
    &&& 1 <= sp.inner_start <= sp.inner_end
    &&& sp.inner_end < sp.used <= t.len()
    &&& 0 <= sp.url_start <= sp.url_end <= t.len()
}

pub proof fn lemma_link_span(t: Seq<char>, prefix: Seq<char>, kind: InlineKind)
    requires
        prefix.len() > 0,
    ensures
        link_span(t, prefix, kind) matches Some(sp) ==> span_fits(t, sp),
{
    crate::text::lemma_find_from(t, seq![']', '('], prefix.len() as int);
    if let Some(e) = find_from(t, seq![']', '('], prefix.len() as int) {
        crate::text::lemma_find_from(t, seq![')'], e + 2);
    }
}

pub proof fn lemma_wrapped_span(t: Seq<char>, marker: Seq<char>, kind: InlineKind)
    requires
        marker.len() > 0,
    ensures
        wrapped_span(t, marker, kind) matches Some(sp) ==> span_fits(t, sp),
{
    crate::text::lemma_find_from(t, marker, marker.len() as int);
}

pub proof fn lemma_span_at(t: Seq<char>, gfm: bool)
    ensures
        span_at(t, gfm) matches Some(sp) ==> span_fits(t, sp),
{
    reveal(span_at);
    lemma_link_span(t, seq!['!', '['], InlineKind::Image);
    lemma_link_span(t, seq!['['], InlineKind::Link);
    lemma_wrapped_span(t, seq!['*', '*'], InlineKind::Strong);
    lemma_wrapped_span(t, seq!['_', '_'], InlineKind::Strong);
    lemma_wrapped_span(t, seq!['~', '~'], InlineKind::Strikethrough);
    lemma_wrapped_span(t, seq!['*'], InlineKind::Emphasis);
    lemma_wrapped_span(t, seq!['_'], InlineKind::Emphasis);
    lemma_wrapped_span(t, seq!['`'], InlineKind::Code);
}

/// The HTML of a span, given its URL, its inner text and the HTML of the inner text.
pub open spec fn span_html(kind: InlineKind, url: Seq<char>, inner: Seq<char>, inner_html: Seq<
    char,
>) -> Seq<char> {
    match kind {
        InlineKind::Image => "<img src=\""@ + escape_text(url) + "\" alt=\""@ + inner_html
            + "\" />"@,
        InlineKind::Link => "<a href=\""@ + escape_text(url) + "\">"@ + inner_html + "</a>"@,
        InlineKind::Strong => "<strong>"@ + inner_html + "</strong>"@,
        InlineKind::Emphasis => "<em>"@ + inner_html + "</em>"@,
        InlineKind::Strikethrough => "<del>"@ + inner_html + "</del>"@,
        InlineKind::Code => "<code>"@ + escape_text(inner) + "</code>"@,
    }
}

/// The HTML of inline Markdown text. At each position the first span that
/// starts there is rendered (labels and bodies recursively, URLs and code
/// escaped); otherwise the character is escaped.
pub open spec fn render_inline(t: Seq<char>, gfm: bool) -> Seq<char>
    decreases t.len(),
{
    if t.len() == 0 {
        Seq::empty()
    } else {
        match span_at(t, gfm) {
            Some(sp) => {
                proof {
                    lemma_span_at(t, gfm);
                }
                let inner = t.subrange(sp.inner_start, sp.inner_end);
                let url = t.subrange(sp.url_start, sp.url_end);
                let html = span_html(sp.kind, url, inner, render_inline(inner, gfm));
                html + render_inline(t.skip(sp.used), gfm)
            },
            None => escape_char(t[0]) + render_inline(t.skip(1), gfm),
        }
    }
}

// ---------------------------------------------------------------------------
// Executable span detection and rendering
// ---------------------------------------------------------------------------

/// A span found in a window of a character vector, with window-relative indices.
struct SpanPos {
    kind: InlineKind,
    inner_start: usize,
    inner_end: usize,
    url_start: usize,
    url_end: usize,
    used: usize,
}

spec fn same_span(p: SpanPos, sp: Span) -> bool {
    &&& p.kind == sp.kind
    &&& p.inner_start == sp.inner_start
    &&& p.inner_end == sp.inner_end
    &&& p.url_start == sp.url_start
    &&& p.url_end == sp.url_end
    &&& p.used == sp.used
}

spec fn span_of(p: SpanPos) -> Span {
    Span {
        kind: p.kind,
        inner_start: p.inner_start as int,
        inner_end: p.inner_end as int,
        url_start: p.url_start as int,
        url_end: p.url_end as int,
        used: p.used as int,
    }
}

spec fn same_opt(p: Option<SpanPos>, sp: Option<Span>) -> bool {
    match (p, sp) {
        (Some(a), Some(b)) => same_span(a, b),
        (None, None) => true,
        _ => false,
    }
}

fn find_link(s: &Vec<char>, lo: usize, hi: usize, prefix: &Vec<char>, kind: InlineKind) -> (r:
    Option<SpanPos>)
    requires
        lo <= hi <= s.len(),
        prefix.len() > 0,
    ensures
        same_opt(r, link_span(s@.subrange(lo as int, hi as int), prefix@, kind)),
{
    let ghost t = s@.subrange(lo as int, hi as int);
    if !occurs_in(s, lo, hi, prefix, 0) {
        return None;
    }
    let close = pattern2(']', '(');
    let paren = pattern1(')');
    match find_in(s, lo, hi, &close, prefix.len()) {
        None => None,
        Some(e) => {
            proof {
                crate::text::lemma_find_from(t, seq![']', '('], prefix.len() as int);
            }
            match find_in(s, lo, hi, &paren, e + 2) {
                None => None,
                Some(u) => {
                    proof {
                        crate::text::lemma_find_from(t, seq![')'], e + 2);
                    }
                    Some(
                        SpanPos {
                            kind,
                            inner_start: prefix.len(),
                            inner_end: e,
                            url_start: e + 2,
                            url_end: u,
                            used: u + 1,
                        },
                    )
                },
            }
        },
    }
}

fn find_wrapped(s: &Vec<char>, lo: usize, hi: usize, marker: &Vec<char>, kind: InlineKind) -> (r:
    Option<SpanPos>)
    requires
        lo <= hi <= s.len(),
        marker.len() > 0,
    ensures
        same_opt(r, wrapped_span(s@.subrange(lo as int, hi as int), marker@, kind)),
{
    let ghost t = s@.subrange(lo as int, hi as int);
    if !occurs_in(s, lo, hi, marker, 0) {
        return None;
    }
    match find_in(s, lo, hi, marker, marker.len()) {
        None => None,
        Some(e) => {
            proof {
                crate::text::lemma_find_from(t, marker@, marker.len() as int);
            }
            if e == marker.len() {
                None
            } else {
                Some(
                    SpanPos {
                        kind,
                        inner_start: marker.len(),
                        inner_end: e,
                        url_start: 0,
                        url_end: 0,
                        used: e + marker.len(),
                    },
                )
            }
        },
    }
}

fn find_span(s: &Vec<char>, lo: usize, hi: usize, gfm: bool) -> (r: Option<SpanPos>)
    requires
        lo <= hi <= s.len(),
    ensures
        same_opt(r, span_at(s@.subrange(lo as int, hi as int), gfm)),
{
    reveal(span_at);
    let r = find_link(s, lo, hi, &pattern2('!', '['), InlineKind::Image);
    if r.is_some() {
        return r;
    }
    let r = find_link(s, lo, hi, &pattern1('['), InlineKind::Link);
    if r.is_some() {
        return r;
    }
    let r = find_wrapped(s, lo, hi, &pattern2('*', '*'), InlineKind::Strong);
    if r.is_some() {
        return r;
    }
    let r = find_wrapped(s, lo, hi, &pattern2('_', '_'), InlineKind::Strong);
    if r.is_some() {
        return r;
    }
    if gfm {
        let r = find_wrapped(s, lo, hi, &pattern2('~', '~'), InlineKind::Strikethrough);
        if r.is_some() {
            return r;
        }
    }
    let r = find_wrapped(s, lo, hi, &pattern1('*'), InlineKind::Emphasis);
    if r.is_some() {
        return r;
    }
    let r = find_wrapped(s, lo, hi, &pattern1('_'), InlineKind::Emphasis);
    if r.is_some() {
        return r;
    }
    find_wrapped(s, lo, hi, &pattern1('`'), InlineKind::Code)
}

/// Appends the HTML of a span found at window index `i`.
fn push_span(out: &mut Vec<char>, s: &Vec<char>, i: usize, hi: usize, sp: &SpanPos, gfm: bool)
    requires
        i <= hi <= s.len(),
        span_fits(s@.subrange(i as int, hi as int), span_of(*sp)),
    ensures
        final(out)@ == old(out)@ + span_html(
            sp.kind,
            s@.subrange(i + sp.url_start, i + sp.url_end),
            s@.subrange(i + sp.inner_start, i + sp.inner_end),
            render_inline(s@.subrange(i + sp.inner_start, i + sp.inner_end), gfm),
        ),
    decreases hi - i, 0nat,
{
    let a = i + sp.inner_start;
    let b = i + sp.inner_end;
    match sp.kind {
        InlineKind::Image => {
            append_str(out, "<img src=\"");
            push_escaped(out, s, i + sp.url_start, i + sp.url_end);
            append_str(out, "\" alt=\"");
            push_inline(out, s, a, b, gfm);
            append_str(out, "\" />");
        },
        InlineKind::Link => {
            append_str(out, "<a href=\"");
            push_escaped(out, s, i + sp.url_start, i + sp.url_end);
            append_str(out, "\">");
            push_inline(out, s, a, b, gfm);
            append_str(out, "</a>");
        },
        InlineKind::Strong => {
            append_str(out, "<strong>");
            push_inline(out, s, a, b, gfm);
            append_str(out, "</strong>");
        },
        InlineKind::Emphasis => {
            append_str(out, "<em>");
            push_inline(out, s, a, b, gfm);
            append_str(out, "</em>");
        },
        InlineKind::Strikethrough => {
            append_str(out, "<del>");
            push_inline(out, s, a, b, gfm);
            append_str(out, "</del>");
        },
        InlineKind::Code => {
            append_str(out, "<code>");
            push_escaped(out, s, a, b);
            append_str(out, "</code>");
        },
    }
    assert(out@ =~= old(out)@ + span_html(
        sp.kind,
        s@.subrange(i + sp.url_start, i + sp.url_end),
        s@.subrange(a as int, b as int),
        render_inline(s@.subrange(a as int, b as int), gfm),
    ));
}

/// Appends the HTML of the inline text `s[lo..hi]`.
pub fn push_inline(out: &mut Vec<char>, s: &Vec<char>, lo: usize, hi: usize, gfm: bool)
    requires
        lo <= hi <= s.len(),
    ensures
        final(out)@ == old(out)@ + render_inline(s@.subrange(lo as int, hi as int), gfm),
    decreases hi - lo, 1nat,
{
    let mut i = lo;
    while i < hi
        invariant
            lo <= i <= hi <= s.len(),
            out@ + render_inline(s@.subrange(i as int, hi as int), gfm) == old(out)@
                + render_inline(s@.subrange(lo as int, hi as int), gfm),
        decreases hi - i,
    {
        let ghost t = s@.subrange(i as int, hi as int);
        let ghost before = out@;
        proof {
            lemma_span_at(t, gfm);
        }
        match find_span(s, i, hi, gfm) {
            Some(sp) => {
                let a = i + sp.inner_start;
                let b = i + sp.inner_end;
                let ghost inner = t.subrange(sp.inner_start as int, sp.inner_end as int);
                let ghost url = t.subrange(sp.url_start as int, sp.url_end as int);
                assert(inner =~= s@.subrange(a as int, b as int));
                assert(url =~= s@.subrange(i + sp.url_start, i + sp.url_end));
                push_span(out, s, i, hi, &sp, gfm);
                assert(t.skip(sp.used as int) =~= s@.subrange(i + sp.used, hi as int));
                i = i + sp.used;
                assert(out@ + render_inline(s@.subrange(i as int, hi as int), gfm) =~= before
                    + render_inline(t, gfm));
            },
            None => {
                push_escaped_char(out, s[i]);
                assert(t.skip(1) =~= s@.subrange(i + 1, hi as int));
                i = i + 1;
                assert(out@ + render_inline(s@.subrange(i as int, hi as int), gfm) =~= before
                    + render_inline(t, gfm));
            },
        }
    }
}

/// Renders inline Markdown as HTML.
pub fn render(source: &str, options: Options) -> (html: String)
    ensures
        html@ == render_inline(source@, options.gfm),
{
    let gfm = options.gfm;
    let v = to_chars(source);
    let mut out: Vec<char> = Vec::new();
    push_inline(&mut out, &v, 0, v.len(), gfm);
    assert(v@.subrange(0, v@.len() as int) =~= v@);
    assert(out@ =~= render_inline(source@, gfm));
    to_string(&out)
}

// ---------------------------------------------------------------------------
// Laws
// ---------------------------------------------------------------------------

/// Whether a character is never markup in HTML text: not `<`, `>` or `"`.
pub open spec fn inert(c: char) -> bool {
    c != '<' && c != '>' && c != '"'
}

/// Escaped text holds no `<`, `>` or `"`: raw HTML in the source never
/// reaches the output as markup.
pub proof fn law_escaped_text_has_no_markup(s: Seq<char>)
    ensures
        forall|i: int| 0 <= i < escape_text(s).len() ==> inert(#[trigger] escape_text(s)[i]),
    decreases s.len(),
{
    if s.len() > 0 {
        law_escaped_text_has_no_markup(s.drop_last());
        reveal_strlit("&amp;");
        reveal_strlit("&lt;");
        reveal_strlit("&gt;");
        reveal_strlit("&quot;");
        let a = escape_text(s.drop_last());
        let b = escape_char(s.last());
        assert forall|i: int| 0 <= i < (a + b).len() implies inert(#[trigger] (a + b)[i]) by {
            if i >= a.len() {
                assert((a + b)[i] == b[i - a.len()]);
            } else {
                assert((a + b)[i] == a[i]);
            }
        }
    }
}

/// Whether a character can start inline markup.
pub open spec fn starts_markup(c: char) -> bool {
    c == '[' || c == '*' || c == '_' || c == '`' || c == '~'
}

/// The escaping of a text starting with a character.
proof fn lemma_escape_text_front(s: Seq<char>)
    requires
        s.len() > 0,
    ensures
        escape_text(s) == escape_char(s[0]) + escape_text(s.skip(1)),
    decreases s.len(),
{
    if s.len() == 1 {
        assert(s.drop_last() =~= Seq::<char>::empty());
        assert(s.skip(1) =~= Seq::<char>::empty());
        assert(escape_text(s) =~= escape_char(s[0]) + escape_text(s.skip(1)));
    } else {
        lemma_escape_text_front(s.drop_last());
        assert(s.drop_last().skip(1) =~= s.skip(1).drop_last());
        assert(s.skip(1).last() == s.last());
        assert(escape_text(s) =~= escape_char(s[0]) + escape_text(s.skip(1)));
    }
}

/// Text without `[`, `*`, `_`, backticks and `~` holds no inline markup: its
/// HTML is its escaping.
pub proof fn law_plain_text_renders_escaped(t: Seq<char>, gfm: bool)
    requires
        forall|i: int| 0 <= i < t.len() ==> !starts_markup(#[trigger] t[i]),
    ensures
        render_inline(t, gfm) == escape_text(t),
    decreases t.len(),
{
    if t.len() > 0 {
        reveal(span_at);
        assert(!starts_markup(t[0]));
        if t.len() > 1 {
            assert(!starts_markup(t[1]));
        }
        assert(!occurs_at(t, seq!['!', '['], 0)) by {
            if occurs_at(t, seq!['!', '['], 0) {
                assert(t.subrange(0, 2)[1] == t[1]);
            }
        }
        assert(!occurs_at(t, seq!['['], 0)) by {
            if occurs_at(t, seq!['['], 0) {
                assert(t.subrange(0, 1)[0] == t[0]);
            }
        }
        assert(!occurs_at(t, seq!['*', '*'], 0)) by {
            if occurs_at(t, seq!['*', '*'], 0) {
                assert(t.subrange(0, 2)[0] == t[0]);
            }
        }
        assert(!occurs_at(t, seq!['_', '_'], 0)) by {
            if occurs_at(t, seq!['_', '_'], 0) {
                assert(t.subrange(0, 2)[0] == t[0]);
            }
        }
        assert(!occurs_at(t, seq!['~', '~'], 0)) by {
            if occurs_at(t, seq!['~', '~'], 0) {
                assert(t.subrange(0, 2)[0] == t[0]);
            }
        }
        assert(!occurs_at(t, seq!['*'], 0)) by {
            if occurs_at(t, seq!['*'], 0) {
                assert(t.subrange(0, 1)[0] == t[0]);
            }
        }
        assert(!occurs_at(t, seq!['_'], 0)) by {
            if occurs_at(t, seq!['_'], 0) {
                assert(t.subrange(0, 1)[0] == t[0]);
            }
        }
        assert(!occurs_at(t, seq!['`'], 0)) by {
            if occurs_at(t, seq!['`'], 0) {
                assert(t.subrange(0, 1)[0] == t[0]);
            }
        }
        assert(span_at(t, gfm) is None);
        assert forall|i: int| 0 <= i < t.skip(1).len() implies !starts_markup(
            #[trigger] t.skip(1)[i],
        ) by {
            assert(t.skip(1)[i] == t[i + 1]);
        }
        law_plain_text_renders_escaped(t.skip(1), gfm);
        lemma_escape_text_front(t);
    }
}

/// A text wrapped in a doubled marker whose body holds neither `_` nor `*`.
proof fn lemma_doubled_marker_span(body: Seq<char>, m: char, gfm: bool)
    requires
        m == '_' || m == '*',
        body.len() > 0,
        forall|i: int| 0 <= i < body.len() ==> body[i] != '_' && body[i] != '*',
    ensures
        render_inline(seq![m, m] + body + seq![m, m], gfm) == "<strong>"@ + render_inline(body, gfm)
            + "</strong>"@,
{
    reveal(span_at);
    let t = seq![m, m] + body + seq![m, m];
    let n = body.len() as int;
    let mm = seq![m, m];
    assert(t[0] == m && t[1] == m);
    assert(t[n + 2] == m && t[n + 3] == m);
    assert forall|k: int| 0 <= k < n implies t[k + 2] == #[trigger] body[k] by {}
    assert(occurs_at(t, mm, 0)) by {
        assert(t.subrange(0, 2) =~= mm);
    }
    assert(occurs_at(t, mm, n + 2)) by {
        assert(t.subrange(n + 2, n + 4) =~= mm);
    }
    assert forall|k: int| 2 <= k < n + 2 implies !occurs_at(t, mm, k) by {
        if occurs_at(t, mm, k) {
            assert(t.subrange(k, k + 2)[0] == t[k]);
            assert(t[k] == body[k - 2]);
        }
    }
    crate::text::lemma_find_from_first(t, mm, 2, n + 2);
    assert(!occurs_at(t, seq!['!', '['], 0)) by {
        if occurs_at(t, seq!['!', '['], 0) {
            assert(t.subrange(0, 2)[0] == t[0]);
        }
    }
    assert(!occurs_at(t, seq!['['], 0)) by {
        if occurs_at(t, seq!['['], 0) {
            assert(t.subrange(0, 1)[0] == t[0]);
        }
    }
    if m == '_' {
        assert(!occurs_at(t, seq!['*', '*'], 0)) by {
            if occurs_at(t, seq!['*', '*'], 0) {
                assert(t.subrange(0, 2)[0] == t[0]);
            }
        }
    }
    let sp = span_at(t, gfm)->0;
    assert(span_at(t, gfm) is Some);
    assert(sp.kind == InlineKind::Strong);
    assert(sp.inner_start == 2 && sp.inner_end == n + 2 && sp.used == n + 4);
    assert(t.subrange(2, n + 2) =~= body);
    assert(t.skip(n + 4) =~= Seq::<char>::empty());
    let inner = t.subrange(2, n + 2);
    assert(render_inline(t, gfm) == span_html(
        sp.kind,
        t.subrange(sp.url_start, sp.url_end),
        inner,
        render_inline(inner, gfm),
    ) + render_inline(t.skip(n + 4), gfm));
    assert(render_inline(Seq::<char>::empty(), gfm) == Seq::<char>::empty());
    assert(render_inline(t, gfm) =~= "<strong>"@ + render_inline(body, gfm) + "</strong>"@);
}

/// Double underscores are strong emphasis just as double asterisks are: a
/// non-empty text without `_` or `*`, wrapped in `__` or in `**`, renders
/// as the strong emphasis of its own HTML.
pub proof fn law_doubled_markers_are_strong(body: Seq<char>, gfm: bool)
    requires
        body.len() > 0,
        forall|i: int| 0 <= i < body.len() ==> body[i] != '_' && body[i] != '*',
    ensures
        render_inline(seq!['_', '_'] + body + seq!['_', '_'], gfm) == "<strong>"@ + render_inline(
            body,
            gfm,
        ) + "</strong>"@,
        render_inline(seq!['*', '*'] + body + seq!['*', '*'], gfm) == "<strong>"@ + render_inline(
            body,
            gfm,
        ) + "</strong>"@,
{
    lemma_doubled_marker_span(body, '_', gfm);
    lemma_doubled_marker_span(body, '*', gfm);
}

/// Strikethrough is a GitHub-Flavored Markdown extension: without it no
/// strikethrough span is recognised.
pub proof fn law_strikethrough_needs_gfm(t: Seq<char>)
    ensures
        span_at(t, false) matches Some(sp) ==> sp.kind != InlineKind::Strikethrough,
{
    reveal(span_at);
}

} // verus!
