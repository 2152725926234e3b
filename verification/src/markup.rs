//! Which `<` characters the HTML output may hold: only those that open or
//! close one of the elements the renderer writes.
use vstd::prelude::*;

use crate::ast::{BlockModel, ItemModel, TableAlignment};
use crate::grammar::{levels_in_range_block, levels_in_range_seq};
use crate::inline::{
    escape_char, escape_text, inert, law_escaped_text_has_no_markup, lemma_span_at, render_inline,
    span_at, span_html, InlineKind,
};
use crate::renderer::{
    alignment_attr, cell_html, item_open, language_attr, list_close, list_open, render_block,
    render_blocks, render_item_blocks, render_items, table_cells, table_rows_html,
};
use crate::text::{decimal, digit_char};

verus! {

/// Whether `n` occurs in `s` at index `j`, character by character.
pub open spec fn matches_at(s: Seq<char>, j: int, n: Seq<char>) -> bool
    decreases n.len(),
{
    if n.len() == 0 {
        true
    } else {
        0 <= j < s.len() && s[j] == n[0] && matches_at(s, j + 1, n.skip(1))
    }
}

/// A heading element name, `h1` to `h6`, then `>`, at index `j`.
pub open spec fn heading_name_at(s: Seq<char>, j: int) -> bool {
    0 <= j && j + 2 < s.len() && s[j] == 'h' && '1' <= s[j + 1] <= '6' && s[j + 2] == '>'
}

/// An element name the renderer writes, at index `j`, with the character
/// that ends it (a space before attributes, or `>`).
pub open spec fn element_at(s: Seq<char>, j: int) -> bool {
    ||| heading_name_at(s, j)
    ||| matches_at(s, j, seq!['p', '>'])
    ||| matches_at(s, j, seq!['p', 'r', 'e', '>'])
    ||| matches_at(s, j, seq!['c', 'o', 'd', 'e', '>'])
    ||| matches_at(s, j, seq!['c', 'o', 'd', 'e', ' '])
    ||| matches_at(s, j, seq!['u', 'l', '>'])
    ||| matches_at(s, j, seq!['o', 'l', '>'])
    ||| matches_at(s, j, seq!['l', 'i', '>'])
    ||| matches_at(s, j, seq!['l', 'i', ' '])
    ||| matches_at(s, j, seq!['i', 'n', 'p', 'u', 't', ' '])
    ||| matches_at(s, j, seq!['b', 'l', 'o', 'c', 'k', 'q', 'u', 'o', 't', 'e', '>'])
    ||| matches_at(s, j, seq!['t', 'a', 'b', 'l', 'e', '>'])
    ||| matches_at(s, j, seq!['t', 'h', 'e', 'a', 'd', '>'])
    ||| matches_at(s, j, seq!['t', 'b', 'o', 'd', 'y', '>'])
    ||| matches_at(s, j, seq!['t', 'r', '>'])
    ||| matches_at(s, j, seq!['t', 'h', '>'])
    ||| matches_at(s, j, seq!['t', 'h', ' '])
    ||| matches_at(s, j, seq!['t', 'd', '>'])
    ||| matches_at(s, j, seq!['t', 'd', ' '])
    ||| matches_at(s, j, seq!['h', 'r', ' '])
    ||| matches_at(s, j, seq!['a', '>'])
    ||| matches_at(s, j, seq!['a', ' '])
    ||| matches_at(s, j, seq!['i', 'm', 'g', ' '])
    ||| matches_at(s, j, seq!['s', 't', 'r', 'o', 'n', 'g', '>'])
    ||| matches_at(s, j, seq!['e', 'm', '>'])
    ||| matches_at(s, j, seq!['d', 'e', 'l', '>'])
}

/// A tag at index `i`: `<` or `</` followed by an element name the renderer writes.
pub open spec fn tag_at(s: Seq<char>, i: int) -> bool {
    element_at(s, i + 1) || (0 <= i + 1 < s.len() && s[i + 1] == '/' && element_at(s, i + 2))
}

/// Every `<` in the text opens or closes an element the renderer writes:
/// no `<` of the Markdown source reaches the HTML as markup.
pub open spec fn safe_html(s: Seq<char>) -> bool {
    forall|i: int| 0 <= i < s.len() && s[i] == '<' ==> #[trigger] tag_at(s, i)
}

/// Checks `safe_html` from index `i` on, one character at a time.
spec fn safe_from(s: Seq<char>, i: int) -> bool
    decreases s.len() - i,
{
    if i < 0 || i >= s.len() {
        true
    } else {
        (s[i] != '<' || tag_at(s, i)) && safe_from(s, i + 1)
    }
}

proof fn lemma_safe_from(s: Seq<char>, i: int)
    requires
        0 <= i,
        safe_from(s, i),
    ensures
        forall|m: int| i <= m < s.len() && s[m] == '<' ==> #[trigger] tag_at(s, m),
    decreases s.len() - i,
{
    if i < s.len() {
        lemma_safe_from(s, i + 1);
    }
}

// ---------------------------------------------------------------------------
// Safety is kept by concatenation
// ---------------------------------------------------------------------------

proof fn lemma_matches_extend(a: Seq<char>, b: Seq<char>, j: int, n: Seq<char>)
    ensures
        0 <= j && matches_at(a, j, n) ==> matches_at(a + b, j, n),
        0 <= j && matches_at(b, j, n) ==> matches_at(a + b, a.len() + j, n),
    decreases n.len(),
{
    if n.len() > 0 {
        lemma_matches_extend(a, b, j + 1, n.skip(1));
    }
}

proof fn lemma_element_extend(a: Seq<char>, b: Seq<char>, j: int)
    requires
        0 <= j,
    ensures
        element_at(a, j) ==> element_at(a + b, j),
        element_at(b, j) ==> element_at(a + b, a.len() + j),
{
    assert forall|n: Seq<char>| matches_at(a, j, n) implies #[trigger] matches_at(a + b, j, n) by {
        lemma_matches_extend(a, b, j, n);
    }
    assert forall|n: Seq<char>| matches_at(b, j, n) implies #[trigger] matches_at(
        a + b,
        a.len() + j,
        n,
    ) by {
        lemma_matches_extend(a, b, j, n);
    }
    if heading_name_at(a, j) {
        assert((a + b)[j] == a[j]);
        assert((a + b)[j + 1] == a[j + 1]);
        assert((a + b)[j + 2] == a[j + 2]);
    }
    if heading_name_at(b, j) {
        assert((a + b)[a.len() + j] == b[j]);
        assert((a + b)[a.len() + j + 1] == b[j + 1]);
        assert((a + b)[a.len() + j + 2] == b[j + 2]);
    }
}

proof fn lemma_tag_extend(a: Seq<char>, b: Seq<char>, i: int)
    requires
        0 <= i,
    ensures
        tag_at(a, i) ==> tag_at(a + b, i),
        tag_at(b, i) ==> tag_at(a + b, a.len() + i),
{
    lemma_element_extend(a, b, i + 1);
    lemma_element_extend(a, b, i + 2);
}

/// Safe texts joined stay safe.
proof fn lemma_safe_concat(a: Seq<char>, b: Seq<char>)
    requires
        safe_html(a),
        safe_html(b),
    ensures
        safe_html(a + b),
{
    assert forall|i: int| 0 <= i < (a + b).len() && (a + b)[i] == '<' implies #[trigger] tag_at(
        a + b,
        i,
    ) by {
        if i < a.len() {
            assert(a[i] == '<');
            assert(tag_at(a, i));
            lemma_tag_extend(a, b, i);
        } else {
            let m = i - a.len();
            assert(b[m] == '<');
            assert(tag_at(b, m));
            lemma_tag_extend(a, b, m);
        }
    }
}

/// A text without `<` is safe.
proof fn lemma_no_angle_safe(s: Seq<char>)
    requires
        forall|i: int| 0 <= i < s.len() ==> #[trigger] s[i] != '<',
    ensures
        safe_html(s),
{
}

// ---------------------------------------------------------------------------
// The fixed pieces of HTML the renderer writes
// ---------------------------------------------------------------------------

/// The fixed pieces of inline HTML are safe.
proof fn lemma_inline_literals_safe()
    ensures
        safe_html("<img src=\""@),
        safe_html("\" alt=\""@),
        safe_html("\" />"@),
        safe_html("<a href=\""@),
        safe_html("\">"@),
        safe_html("</a>"@),
        safe_html("<strong>"@),
        safe_html("</strong>"@),
        safe_html("<em>"@),
        safe_html("</em>"@),
        safe_html("<del>"@),
        safe_html("</del>"@),
        safe_html("<code>"@),
        safe_html("</code>"@),
{
    reveal_strlit("<img src=\"");
    reveal_strlit("\" alt=\"");
    reveal_strlit("\" />");
    reveal_strlit("<a href=\"");
    reveal_strlit("\">");
    reveal_strlit("</a>");
    reveal_strlit("<strong>");
    reveal_strlit("</strong>");
    reveal_strlit("<em>");
    reveal_strlit("</em>");
    reveal_strlit("<del>");
    reveal_strlit("</del>");
    reveal_strlit("<code>");
    reveal_strlit("</code>");
    reveal_with_fuel(safe_from, 32);
    reveal_with_fuel(matches_at, 12);
    assert(safe_from("<img src=\""@, 0));
    lemma_safe_from("<img src=\""@, 0);
    assert(safe_from("\" alt=\""@, 0));
    lemma_safe_from("\" alt=\""@, 0);
    assert(safe_from("\" />"@, 0));
    lemma_safe_from("\" />"@, 0);
    assert(safe_from("<a href=\""@, 0));
    lemma_safe_from("<a href=\""@, 0);
    assert(safe_from("\">"@, 0));
    lemma_safe_from("\">"@, 0);
    assert(safe_from("</a>"@, 0));
    lemma_safe_from("</a>"@, 0);
    assert(safe_from("<strong>"@, 0));
    lemma_safe_from("<strong>"@, 0);
    assert(safe_from("</strong>"@, 0));
    lemma_safe_from("</strong>"@, 0);
    assert(safe_from("<em>"@, 0));
    lemma_safe_from("<em>"@, 0);
    assert(safe_from("</em>"@, 0));
    lemma_safe_from("</em>"@, 0);
    assert(safe_from("<del>"@, 0));
    lemma_safe_from("<del>"@, 0);
    assert(safe_from("</del>"@, 0));
    lemma_safe_from("</del>"@, 0);
    assert(safe_from("<code>"@, 0));
    lemma_safe_from("<code>"@, 0);
    assert(safe_from("</code>"@, 0));
    lemma_safe_from("</code>"@, 0);
}

/// The fixed pieces of block HTML, and the entities of escaped text, are safe.
proof fn lemma_block_literals_safe()
    ensures
        safe_html("<p>"@),
        safe_html("</p>\n"@),
        safe_html("</code></pre>\n"@),
        safe_html("<ol>\n"@),
        safe_html("<ul>\n"@),
        safe_html("</ol>\n"@),
        safe_html("</ul>\n"@),
        safe_html("<li class=\"task-list-item\">"@),
        safe_html("<li>"@),
        safe_html("<input type=\"checkbox\" disabled"@),
        safe_html(" checked"@),
        safe_html("> "@),
        safe_html("</li>\n"@),
        safe_html("<blockquote>\n"@),
        safe_html("</blockquote>\n"@),
        safe_html("<table>\n<thead>\n<tr>"@),
        safe_html("</tr>\n</thead>\n<tbody>\n"@),
        safe_html("</tbody>\n</table>\n"@),
        safe_html("<tr>"@),
        safe_html("</tr>\n"@),
        safe_html("<hr />\n"@),
        safe_html("\n"@),
        safe_html("\""@),
        safe_html(">"@),
        safe_html("&amp;"@),
        safe_html("&lt;"@),
        safe_html("&gt;"@),
        safe_html("&quot;"@),
{
    reveal_strlit("<p>");
    reveal_strlit("</p>\n");
    reveal_strlit("</code></pre>\n");
    reveal_strlit("<ol>\n");
    reveal_strlit("<ul>\n");
    reveal_strlit("</ol>\n");
    reveal_strlit("</ul>\n");
    reveal_strlit("<li class=\"task-list-item\">");
    reveal_strlit("<li>");
    reveal_strlit("<input type=\"checkbox\" disabled");
    reveal_strlit(" checked");
    reveal_strlit("> ");
    reveal_strlit("</li>\n");
    reveal_strlit("<blockquote>\n");
    reveal_strlit("</blockquote>\n");
    reveal_strlit("<table>\n<thead>\n<tr>");
    reveal_strlit("</tr>\n</thead>\n<tbody>\n");
    reveal_strlit("</tbody>\n</table>\n");
    reveal_strlit("<tr>");
    reveal_strlit("</tr>\n");
    reveal_strlit("<hr />\n");
    reveal_strlit("\n");
    reveal_strlit("\"");
    reveal_strlit(">");
    reveal_strlit("&amp;");
    reveal_strlit("&lt;");
    reveal_strlit("&gt;");
    reveal_strlit("&quot;");
    reveal_with_fuel(safe_from, 32);
    reveal_with_fuel(matches_at, 12);
    assert(safe_from("<p>"@, 0));
    lemma_safe_from("<p>"@, 0);
    assert(safe_from("</p>\n"@, 0));
    lemma_safe_from("</p>\n"@, 0);
    assert(safe_from("</code></pre>\n"@, 0));
    lemma_safe_from("</code></pre>\n"@, 0);
    assert(safe_from("<ol>\n"@, 0));
    lemma_safe_from("<ol>\n"@, 0);
    assert(safe_from("<ul>\n"@, 0));
    lemma_safe_from("<ul>\n"@, 0);
    assert(safe_from("</ol>\n"@, 0));
    lemma_safe_from("</ol>\n"@, 0);
    assert(safe_from("</ul>\n"@, 0));
    lemma_safe_from("</ul>\n"@, 0);
    assert(safe_from("<li class=\"task-list-item\">"@, 0));
    lemma_safe_from("<li class=\"task-list-item\">"@, 0);
    assert(safe_from("<li>"@, 0));
    lemma_safe_from("<li>"@, 0);
    assert(safe_from("<input type=\"checkbox\" disabled"@, 0));
    lemma_safe_from("<input type=\"checkbox\" disabled"@, 0);
    assert(safe_from(" checked"@, 0));
    lemma_safe_from(" checked"@, 0);
    assert(safe_from("> "@, 0));
    lemma_safe_from("> "@, 0);
    assert(safe_from("</li>\n"@, 0));
    lemma_safe_from("</li>\n"@, 0);
    assert(safe_from("<blockquote>\n"@, 0));
    lemma_safe_from("<blockquote>\n"@, 0);
    assert(safe_from("</blockquote>\n"@, 0));
    lemma_safe_from("</blockquote>\n"@, 0);
    assert(safe_from("<table>\n<thead>\n<tr>"@, 0));
    lemma_safe_from("<table>\n<thead>\n<tr>"@, 0);
    assert(safe_from("</tr>\n</thead>\n<tbody>\n"@, 0));
    lemma_safe_from("</tr>\n</thead>\n<tbody>\n"@, 0);
    assert(safe_from("</tbody>\n</table>\n"@, 0));
    lemma_safe_from("</tbody>\n</table>\n"@, 0);
    assert(safe_from("<tr>"@, 0));
    lemma_safe_from("<tr>"@, 0);
    assert(safe_from("</tr>\n"@, 0));
    lemma_safe_from("</tr>\n"@, 0);
    assert(safe_from("<hr />\n"@, 0));
    lemma_safe_from("<hr />\n"@, 0);
    assert(safe_from("\n"@, 0));
    lemma_safe_from("\n"@, 0);
    assert(safe_from("\""@, 0));
    lemma_safe_from("\""@, 0);
    assert(safe_from(">"@, 0));
    lemma_safe_from(">"@, 0);
    assert(safe_from("&amp;"@, 0));
    lemma_safe_from("&amp;"@, 0);
    assert(safe_from("&lt;"@, 0));
    lemma_safe_from("&lt;"@, 0);
    assert(safe_from("&gt;"@, 0));
    lemma_safe_from("&gt;"@, 0);
    assert(safe_from("&quot;"@, 0));
    lemma_safe_from("&quot;"@, 0);
}

/// The tags of a heading of level 1 to 6 are safe.
proof fn lemma_heading_tags_safe(n: nat)
    requires
        1 <= n <= 6,
    ensures
        safe_html("<h"@ + decimal(n) + ">"@),
        safe_html("</h"@ + decimal(n) + ">\n"@),
{
    reveal_strlit("<h");
    reveal_strlit("</h");
    reveal_strlit(">");
    reveal_strlit(">\n");
    let open = "<h"@ + decimal(n) + ">"@;
    let close = "</h"@ + decimal(n) + ">\n"@;
    assert(decimal(n) == seq![digit_char(n)]);
    assert(open[2] == digit_char(n));
    assert(close[3] == digit_char(n));
    reveal_with_fuel(safe_from, 8);
    assert(safe_from(open, 0));
    lemma_safe_from(open, 0);
    assert(safe_from(close, 0));
    lemma_safe_from(close, 0);
}

// ---------------------------------------------------------------------------
// Inline HTML
// ---------------------------------------------------------------------------

/// Escaped text is safe: it holds no `<` at all.
proof fn lemma_escape_safe(s: Seq<char>)
    ensures
        safe_html(escape_text(s)),
{
    law_escaped_text_has_no_markup(s);
    let e = escape_text(s);
    assert forall|i: int| 0 <= i < e.len() implies #[trigger] e[i] != '<' by {
        assert(inert(e[i]));
    }
    lemma_no_angle_safe(e);
}

proof fn lemma_escape_char_safe(c: char)
    ensures
        safe_html(escape_char(c)),
{
    lemma_block_literals_safe();
    if c != '&' && c != '<' && c != '>' && c != '"' {
        lemma_no_angle_safe(seq![c]);
    }
}

proof fn lemma_span_html_safe(kind: InlineKind, url: Seq<char>, inner: Seq<char>, inner_html: Seq<char>)
    requires
        safe_html(inner_html),
    ensures
        safe_html(span_html(kind, url, inner, inner_html)),
{
    lemma_inline_literals_safe();
    lemma_escape_safe(url);
    lemma_escape_safe(inner);
    match kind {
        InlineKind::Image => {
            lemma_safe_concat("<img src=\""@, escape_text(url));
            lemma_safe_concat("<img src=\""@ + escape_text(url), "\" alt=\""@);
            lemma_safe_concat("<img src=\""@ + escape_text(url) + "\" alt=\""@, inner_html);
            lemma_safe_concat(
                "<img src=\""@ + escape_text(url) + "\" alt=\""@ + inner_html,
                "\" />"@,
            );
        },
        InlineKind::Link => {
            lemma_safe_concat("<a href=\""@, escape_text(url));
            lemma_safe_concat("<a href=\""@ + escape_text(url), "\">"@);
            lemma_safe_concat("<a href=\""@ + escape_text(url) + "\">"@, inner_html);
            lemma_safe_concat("<a href=\""@ + escape_text(url) + "\">"@ + inner_html, "</a>"@);
        },
        InlineKind::Strong => {
            lemma_safe_concat("<strong>"@, inner_html);
            lemma_safe_concat("<strong>"@ + inner_html, "</strong>"@);
        },
        InlineKind::Emphasis => {
            lemma_safe_concat("<em>"@, inner_html);
            lemma_safe_concat("<em>"@ + inner_html, "</em>"@);
        },
        InlineKind::Strikethrough => {
            lemma_safe_concat("<del>"@, inner_html);
            lemma_safe_concat("<del>"@ + inner_html, "</del>"@);
        },
        InlineKind::Code => {
            lemma_safe_concat("<code>"@, escape_text(inner));
            lemma_safe_concat("<code>"@ + escape_text(inner), "</code>"@);
        },
    }
}

/// The HTML of inline Markdown is safe, whatever the text.
pub proof fn law_inline_html_is_safe(t: Seq<char>, gfm: bool)
    ensures
        safe_html(render_inline(t, gfm)),
    decreases t.len(),
{
    if t.len() > 0 {
        lemma_span_at(t, gfm);
        match span_at(t, gfm) {
            Some(sp) => {
                let inner = t.subrange(sp.inner_start, sp.inner_end);
                let url = t.subrange(sp.url_start, sp.url_end);
                law_inline_html_is_safe(inner, gfm);
                law_inline_html_is_safe(t.skip(sp.used), gfm);
                lemma_span_html_safe(sp.kind, url, inner, render_inline(inner, gfm));
                lemma_safe_concat(
                    span_html(sp.kind, url, inner, render_inline(inner, gfm)),
                    render_inline(t.skip(sp.used), gfm),
                );
            },
            None => {
                lemma_escape_char_safe(t[0]);
                law_inline_html_is_safe(t.skip(1), gfm);
                lemma_safe_concat(escape_char(t[0]), render_inline(t.skip(1), gfm));
            },
        }
    } else {
        lemma_no_angle_safe(render_inline(t, gfm));
    }
}

// ---------------------------------------------------------------------------
// Block HTML
// ---------------------------------------------------------------------------

/// The opening tags of a fenced code block are safe, with or without a language.
proof fn lemma_code_open_safe(language: Option<Seq<char>>)
    ensures
        safe_html("<pre><code"@ + language_attr(language) + ">"@),
{
    reveal_strlit("<pre><code");
    reveal_strlit(" class=\"language-");
    reveal_strlit("\"");
    reveal_strlit(">");
    reveal_with_fuel(safe_from, 30);
    reveal_with_fuel(matches_at, 8);
    lemma_block_literals_safe();
    match language {
        None => {
            let x = "<pre><code"@ + Seq::<char>::empty() + ">"@;
            assert(safe_from(x, 0));
            lemma_safe_from(x, 0);
        },
        Some(l) => {
            let head = "<pre><code"@ + " class=\"language-"@;
            assert(safe_from(head, 0));
            lemma_safe_from(head, 0);
            lemma_escape_safe(l);
            lemma_safe_concat(head, escape_text(l));
            lemma_safe_concat(head + escape_text(l), "\""@);
            lemma_safe_concat(head + escape_text(l) + "\""@, ">"@);
            assert("<pre><code"@ + language_attr(language) + ">"@ =~= head + escape_text(l) + "\""@
                + ">"@);
        },
    }
}

/// The tags of a table cell are safe.
proof fn lemma_cell_tags_safe(tag: Seq<char>, a: TableAlignment)
    requires
        tag == "th"@ || tag == "td"@,
    ensures
        safe_html("<"@ + tag + alignment_attr(a) + ">"@),
        safe_html("</"@ + tag + ">"@),
{
    reveal_strlit("<");
    reveal_strlit("</");
    reveal_strlit(">");
    reveal_strlit("th");
    reveal_strlit("td");
    reveal_strlit(" align=\"left\"");
    reveal_strlit(" align=\"center\"");
    reveal_strlit(" align=\"right\"");
    reveal_with_fuel(safe_from, 20);
    reveal_with_fuel(matches_at, 4);
    let open = "<"@ + tag + alignment_attr(a) + ">"@;
    let close = "</"@ + tag + ">"@;
    assert(safe_from(open, 0));
    lemma_safe_from(open, 0);
    assert(safe_from(close, 0));
    lemma_safe_from(close, 0);
}

proof fn lemma_table_cells_safe(
    cells: Seq<Seq<char>>,
    alignments: Seq<TableAlignment>,
    tag: Seq<char>,
    gfm: bool,
)
    requires
        tag == "th"@ || tag == "td"@,
    ensures
        safe_html(table_cells(cells, alignments, tag, gfm)),
    decreases cells.len(),
{
    if cells.len() == 0 || alignments.len() == 0 {
        lemma_no_angle_safe(table_cells(cells, alignments, tag, gfm));
    } else {
        let open = "<"@ + tag + alignment_attr(alignments[0]) + ">"@;
        let close = "</"@ + tag + ">"@;
        lemma_cell_tags_safe(tag, alignments[0]);
        law_inline_html_is_safe(cells[0], gfm);
        lemma_safe_concat(open, render_inline(cells[0], gfm));
        lemma_safe_concat(open + render_inline(cells[0], gfm), close);
        assert(cell_html(cells[0], alignments[0], tag, gfm) =~= open + render_inline(cells[0], gfm)
            + close);
        lemma_table_cells_safe(cells.drop_first(), alignments.drop_first(), tag, gfm);
        lemma_safe_concat(
            cell_html(cells[0], alignments[0], tag, gfm),
            table_cells(cells.drop_first(), alignments.drop_first(), tag, gfm),
        );
    }
}

proof fn lemma_table_rows_safe(rows: Seq<Seq<Seq<char>>>, alignments: Seq<TableAlignment>, gfm: bool)
    ensures
        safe_html(table_rows_html(rows, alignments, gfm)),
    decreases rows.len(),
{
    reveal_strlit("td");
    if rows.len() == 0 {
        lemma_no_angle_safe(table_rows_html(rows, alignments, gfm));
    } else {
        lemma_block_literals_safe();
        lemma_table_rows_safe(rows.drop_last(), alignments, gfm);
        lemma_table_cells_safe(rows.last(), alignments, "td"@, gfm);
        let before = table_rows_html(rows.drop_last(), alignments, gfm);
        let cells = table_cells(rows.last(), alignments, "td"@, gfm);
        lemma_safe_concat(before, "<tr>"@);
        lemma_safe_concat(before + "<tr>"@, cells);
        lemma_safe_concat(before + "<tr>"@ + cells, "</tr>\n"@);
    }
}

proof fn lemma_item_open_safe(checked: Option<bool>, gfm: bool)
    ensures
        safe_html(item_open(checked, gfm)),
{
    lemma_block_literals_safe();
    let li = if gfm && checked is Some {
        "<li class=\"task-list-item\">"@
    } else {
        "<li>"@
    };
    match checked {
        Some(c) => {
            let mark = if c {
                " checked"@
            } else {
                Seq::<char>::empty()
            };
            lemma_no_angle_safe(Seq::<char>::empty());
            lemma_safe_concat("<input type=\"checkbox\" disabled"@, mark);
            lemma_safe_concat("<input type=\"checkbox\" disabled"@ + mark, "> "@);
            lemma_safe_concat(li, "<input type=\"checkbox\" disabled"@ + mark + "> "@);
        },
        None => {
            lemma_no_angle_safe(Seq::<char>::empty());
            lemma_safe_concat(li, Seq::<char>::empty());
        },
    }
}

/// The HTML of any block is safe.
proof fn lemma_block_safe(b: BlockModel, gfm: bool)
    requires
        levels_in_range_block(b),
    ensures
        safe_html(render_block(b, gfm)),
    decreases b,
{
    lemma_block_literals_safe();
    match b {
        BlockModel::Heading { level, content } => {
            let open = "<h"@ + decimal(level as nat) + ">"@;
            let close = "</h"@ + decimal(level as nat) + ">\n"@;
            lemma_heading_tags_safe(level as nat);
            law_inline_html_is_safe(content, gfm);
            lemma_safe_concat(open, render_inline(content, gfm));
            lemma_safe_concat(open + render_inline(content, gfm), close);
            assert(render_block(b, gfm) =~= open + render_inline(content, gfm) + close);
        },
        BlockModel::Paragraph(content) => {
            law_inline_html_is_safe(content, gfm);
            lemma_safe_concat("<p>"@, render_inline(content, gfm));
            lemma_safe_concat("<p>"@ + render_inline(content, gfm), "</p>\n"@);
        },
        BlockModel::CodeFence { language, content } => {
            let open = "<pre><code"@ + language_attr(language) + ">"@;
            lemma_code_open_safe(language);
            lemma_escape_safe(content);
            lemma_safe_concat(open, escape_text(content));
            lemma_safe_concat(open + escape_text(content), "</code></pre>\n"@);
            assert(render_block(b, gfm) =~= open + escape_text(content) + "</code></pre>\n"@);
        },
        BlockModel::List { ordered, items, .. } => {
            lemma_items_safe(items, gfm);
            lemma_safe_concat(list_open(ordered), render_items(items, gfm));
            lemma_safe_concat(list_open(ordered) + render_items(items, gfm), list_close(ordered));
        },
        BlockModel::BlockQuote(blocks) => {
            law_rendered_html_is_safe(blocks, gfm);
            lemma_safe_concat("<blockquote>\n"@, render_blocks(blocks, gfm));
            lemma_safe_concat(
                "<blockquote>\n"@ + render_blocks(blocks, gfm),
                "</blockquote>\n"@,
            );
        },
        BlockModel::Table { header, alignments, rows } => {
            reveal_strlit("th");
            let head = table_cells(header, alignments, "th"@, gfm);
            let body = table_rows_html(rows, alignments, gfm);
            lemma_table_cells_safe(header, alignments, "th"@, gfm);
            lemma_table_rows_safe(rows, alignments, gfm);
            lemma_safe_concat("<table>\n<thead>\n<tr>"@, head);
            lemma_safe_concat("<table>\n<thead>\n<tr>"@ + head, "</tr>\n</thead>\n<tbody>\n"@);
            lemma_safe_concat("<table>\n<thead>\n<tr>"@ + head + "</tr>\n</thead>\n<tbody>\n"@, body);
            lemma_safe_concat(
                "<table>\n<thead>\n<tr>"@ + head + "</tr>\n</thead>\n<tbody>\n"@ + body,
                "</tbody>\n</table>\n"@,
            );
        },
        BlockModel::HorizontalRule => {},
    }
}

/// Rendering never lets a `<` through as markup that the renderer did not
/// write: the HTML of any blocks whose headings have levels 1 to 6, with
/// any texts in them, is safe.
pub proof fn law_rendered_html_is_safe(bs: Seq<BlockModel>, gfm: bool)
    requires
        levels_in_range_seq(bs),
    ensures
        safe_html(render_blocks(bs, gfm)),
    decreases bs,
{
    if bs.len() == 0 {
        lemma_no_angle_safe(render_blocks(bs, gfm));
    } else {
        assert(levels_in_range_block(bs[bs.len() - 1]));
        assert(levels_in_range_seq(bs.drop_last())) by {
            assert forall|k: int| 0 <= k < bs.drop_last().len() implies levels_in_range_block(
                #[trigger] bs.drop_last()[k],
            ) by {
                assert(bs.drop_last()[k] == bs[k]);
            }
        }
        law_rendered_html_is_safe(bs.drop_last(), gfm);
        lemma_block_safe(bs.last(), gfm);
        lemma_safe_concat(render_blocks(bs.drop_last(), gfm), render_block(bs.last(), gfm));
    }
}

proof fn lemma_items_safe(items: Seq<ItemModel>, gfm: bool)
    requires
        forall|k: int| 0 <= k < items.len() ==> levels_in_range_seq(#[trigger] items[k].blocks),
    ensures
        safe_html(render_items(items, gfm)),
    decreases items,
{
    if items.len() == 0 {
        lemma_no_angle_safe(render_items(items, gfm));
    } else {
        lemma_block_literals_safe();
        let it = items.last();
        assert(levels_in_range_seq(items[items.len() - 1].blocks));
        assert forall|k: int| 0 <= k < items.drop_last().len() implies levels_in_range_seq(
            #[trigger] items.drop_last()[k].blocks,
        ) by {
            assert(items.drop_last()[k] == items[k]);
        }
        lemma_items_safe(items.drop_last(), gfm);
        lemma_item_open_safe(it.checked, gfm);
        lemma_item_blocks_safe(it.blocks, gfm);
        let before = render_items(items.drop_last(), gfm);
        lemma_safe_concat(before, item_open(it.checked, gfm));
        lemma_safe_concat(before + item_open(it.checked, gfm), render_item_blocks(it.blocks, gfm));
        lemma_safe_concat(
            before + item_open(it.checked, gfm) + render_item_blocks(it.blocks, gfm),
            "</li>\n"@,
        );
    }
}

proof fn lemma_item_blocks_safe(bs: Seq<BlockModel>, gfm: bool)
    requires
        levels_in_range_seq(bs),
    ensures
        safe_html(render_item_blocks(bs, gfm)),
    decreases bs,
{
    if bs.len() == 0 {
        lemma_no_angle_safe(render_item_blocks(bs, gfm));
    } else {
        lemma_block_literals_safe();
        assert(levels_in_range_block(bs[bs.len() - 1]));
        assert(levels_in_range_seq(bs.drop_last())) by {
            assert forall|k: int| 0 <= k < bs.drop_last().len() implies levels_in_range_block(
                #[trigger] bs.drop_last()[k],
            ) by {
                assert(bs.drop_last()[k] == bs[k]);
            }
        }
        lemma_item_blocks_safe(bs.drop_last(), gfm);
        let before = render_item_blocks(bs.drop_last(), gfm);
        match bs.last() {
            BlockModel::Paragraph(content) => {
                law_inline_html_is_safe(content, gfm);
                lemma_safe_concat(before, render_inline(content, gfm));
            },
            other => {
                lemma_block_safe(other, gfm);
                lemma_safe_concat("\n"@, render_block(other, gfm));
                lemma_safe_concat(before, "\n"@ + render_block(other, gfm));
            },
        }
    }
}

} // verus!
