//! Rendering a document tree as HTML.
use vstd::prelude::*;

use crate::ast::{
    block_model, blocks_model, item_model, items_model, lemma_blocks_model, lemma_items_model,
    Block, BlockModel, Document, ItemModel, ListItem, TableAlignment,
};
use crate::inline::{escape_text, push_escaped, push_inline, render_inline};
use crate::text::{append_str, decimal, push_decimal, to_chars, to_string};
use crate::Options;

verus! {

// ---------------------------------------------------------------------------
// The HTML of blocks
// ---------------------------------------------------------------------------

/// The ` class="language-.."` attribute of a fenced code block.
pub open spec fn language_attr(language: Option<Seq<char>>) -> Seq<char> {
    match language {
        Some(l) => " class=\"language-"@ + escape_text(l) + "\""@,
        None => Seq::empty(),
    }
}

/// The `align` attribute of a table cell.
pub open spec fn alignment_attr(a: TableAlignment) -> Seq<char> {
    match a {
        TableAlignment::Unaligned => Seq::empty(),
        TableAlignment::Left => " align=\"left\""@,
        TableAlignment::Center => " align=\"center\""@,
        TableAlignment::Right => " align=\"right\""@,
    }
}

/// One table cell as `<tag align..>..</tag>`.
pub open spec fn cell_html(cell: Seq<char>, a: TableAlignment, tag: Seq<char>, gfm: bool) -> Seq<char> {
    "<"@ + tag + alignment_attr(a) + ">"@ + render_inline(cell, gfm) + "</"@ + tag + ">"@
}

/// Table cells paired with alignments (as far as both go), each as `<tag..>..</tag>`.
pub open spec fn table_cells(
    cells: Seq<Seq<char>>,
    alignments: Seq<TableAlignment>,
    tag: Seq<char>,
    gfm: bool,
) -> Seq<char>
    decreases cells.len(),
{
    if cells.len() == 0 || alignments.len() == 0 {
        Seq::empty()
    } else {
        cell_html(cells[0], alignments[0], tag, gfm) + table_cells(
            cells.drop_first(),
            alignments.drop_first(),
            tag,
            gfm,
        )
    }
}

/// The body rows of a table.
pub open spec fn table_rows_html(
    rows: Seq<Seq<Seq<char>>>,
    alignments: Seq<TableAlignment>,
    gfm: bool,
) -> Seq<char>
    decreases rows.len(),
{
    if rows.len() == 0 {
        Seq::empty()
    } else {
        table_rows_html(rows.drop_last(), alignments, gfm) + "<tr>"@ + table_cells(
            rows.last(),
            alignments,
            "td"@,
            gfm,
        ) + "</tr>\n"@
    }
}

/// The opening tag of a list: `<ol>` or `<ul>`. The number of the first
/// item of an ordered list stays in the document and is not rendered.
pub open spec fn list_open(ordered: bool) -> Seq<char> {
    if ordered {
        "<ol>\n"@
    } else {
        "<ul>\n"@
    }
}

pub open spec fn list_close(ordered: bool) -> Seq<char> {
    if ordered {
        "</ol>\n"@
    } else {
        "</ul>\n"@
    }
}

/// The start of a list item: a task item gets a class with
/// GitHub-Flavored Markdown, and any item with a task state a disabled checkbox.
pub open spec fn item_open(checked: Option<bool>, gfm: bool) -> Seq<char> {
    (if gfm && checked is Some {
        "<li class=\"task-list-item\">"@
    } else {
        "<li>"@
    }) + match checked {
        Some(c) => "<input type=\"checkbox\" disabled"@ + (if c {
            " checked"@
        } else {
            Seq::empty()
        }) + "> "@,
        None => Seq::empty(),
    }
}

/// The HTML of one block.
pub open spec fn render_block(b: BlockModel, gfm: bool) -> Seq<char>
    decreases b,
{
    match b {
        BlockModel::Heading { level, content } => "<h"@ + decimal(level as nat) + ">"@
            + render_inline(content, gfm) + "</h"@ + decimal(level as nat) + ">\n"@,
        BlockModel::Paragraph(content) => "<p>"@ + render_inline(content, gfm) + "</p>\n"@,
        BlockModel::CodeFence { language, content } => "<pre><code"@ + language_attr(language)
            + ">"@ + escape_text(content) + "</code></pre>\n"@,
        BlockModel::List { ordered, items, .. } => list_open(ordered) + render_items(
            items,
            gfm,
        ) + list_close(ordered),
        BlockModel::BlockQuote(blocks) => "<blockquote>\n"@ + render_blocks(blocks, gfm)
            + "</blockquote>\n"@,
        BlockModel::Table { header, alignments, rows } => "<table>\n<thead>\n<tr>"@ + table_cells(
            header,
            alignments,
            "th"@,
            gfm,
        ) + "</tr>\n</thead>\n<tbody>\n"@ + table_rows_html(rows, alignments, gfm)
            + "</tbody>\n</table>\n"@,
        BlockModel::HorizontalRule => "<hr />\n"@,
    }
}

/// The HTML of blocks, one after the other.
pub open spec fn render_blocks(bs: Seq<BlockModel>, gfm: bool) -> Seq<char>
    decreases bs,
{
    if bs.len() == 0 {
        Seq::empty()
    } else {
        render_blocks(bs.drop_last(), gfm) + render_block(bs.last(), gfm)
    }
}

/// Each block renders on its own, in source order: no blocks render as
/// nothing, and the HTML of two runs of blocks one after the other is the HTML
/// of the first followed by the HTML of the second.
pub proof fn law_render_blocks_concat(a: Seq<BlockModel>, b: Seq<BlockModel>, gfm: bool)
    ensures
        render_blocks(Seq::empty(), gfm) == Seq::<char>::empty(),
        render_blocks(a + b, gfm) == render_blocks(a, gfm) + render_blocks(b, gfm),
    decreases b.len(),
{
    if b.len() == 0 {
        assert(a + b =~= a);
        assert(render_blocks(a, gfm) + render_blocks(b, gfm) =~= render_blocks(a, gfm));
    } else {
        law_render_blocks_concat(a, b.drop_last(), gfm);
        assert((a + b).drop_last() =~= a + b.drop_last());
        assert((a + b).last() == b.last());
        assert(render_blocks(a + b, gfm) =~= render_blocks(a, gfm) + render_blocks(b, gfm));
    }
}

/// The HTML of list items.
pub open spec fn render_items(items: Seq<ItemModel>, gfm: bool) -> Seq<char>
    decreases items,
{
    if items.len() == 0 {
        Seq::empty()
    } else {
        render_items(items.drop_last(), gfm) + item_open(items.last().checked, gfm)
            + render_item_blocks(items.last().blocks, gfm) + "</li>\n"@
    }
}

/// The blocks of a list item: paragraphs as bare inline HTML (a compact
/// item), other blocks on a new line.
pub open spec fn render_item_blocks(bs: Seq<BlockModel>, gfm: bool) -> Seq<char>
    decreases bs,
{
    if bs.len() == 0 {
        Seq::empty()
    } else {
        render_item_blocks(bs.drop_last(), gfm) + match bs.last() {
            BlockModel::Paragraph(content) => render_inline(content, gfm),
            other => "\n"@ + render_block(other, gfm),
        }
    }
}

// ---------------------------------------------------------------------------
// Executable rendering
// ---------------------------------------------------------------------------

fn push_inline_str(out: &mut Vec<char>, s: &String, gfm: bool)
    ensures
        final(out)@ == old(out)@ + render_inline(s@, gfm),
{
    let v = to_chars(s.as_str());
    push_inline(out, &v, 0, v.len(), gfm);
    assert(v@.subrange(0, v@.len() as int) =~= v@);
}

fn push_escaped_str(out: &mut Vec<char>, s: &String)
    ensures
        final(out)@ == old(out)@ + escape_text(s@),
{
    let v = to_chars(s.as_str());
    push_escaped(out, &v, 0, v.len());
    assert(v@.subrange(0, v@.len() as int) =~= v@);
}

fn push_alignment(out: &mut Vec<char>, a: TableAlignment)
    ensures
        final(out)@ == old(out)@ + alignment_attr(a),
{
    match a {
        TableAlignment::Unaligned => {
            assert(out@ =~= old(out)@ + Seq::<char>::empty());
        },
        TableAlignment::Left => append_str(out, " align=\"left\""),
        TableAlignment::Center => append_str(out, " align=\"center\""),
        TableAlignment::Right => append_str(out, " align=\"right\""),
    }
}

fn push_cell(out: &mut Vec<char>, cell: &String, a: TableAlignment, header: bool, gfm: bool)
    ensures
        final(out)@ == old(out)@ + cell_html(
            cell@,
            a,
            if header {
                "th"@
            } else {
                "td"@
            },
            gfm,
        ),
{
    append_str(out, "<");
    if header {
        append_str(out, "th");
    } else {
        append_str(out, "td");
    }
    push_alignment(out, a);
    append_str(out, ">");
    push_inline_str(out, cell, gfm);
    append_str(out, "</");
    if header {
        append_str(out, "th");
    } else {
        append_str(out, "td");
    }
    append_str(out, ">");
    assert(out@ =~= old(out)@ + cell_html(
        cell@,
        a,
        if header {
            "th"@
        } else {
            "td"@
        },
        gfm,
    ));
}

fn push_cells(
    out: &mut Vec<char>,
    cells: &Vec<String>,
    alignments: &Vec<TableAlignment>,
    header: bool,
    gfm: bool,
)
    ensures
        final(out)@ == old(out)@ + table_cells(
            crate::ast::strings_model(cells@),
            alignments@,
            if header {
                "th"@
            } else {
                "td"@
            },
            gfm,
        ),
{
    let ghost tag = if header {
        "th"@
    } else {
        "td"@
    };
    let ghost cs = crate::ast::strings_model(cells@);
    let mut k: usize = 0;
    assert(cs.skip(0) =~= cs);
    assert(alignments@.skip(0) =~= alignments@);
    while k < cells.len() && k < alignments.len()
        invariant
            k <= cells.len(),
            k <= alignments.len(),
            tag == (if header {
                "th"@
            } else {
                "td"@
            }),
            cs == crate::ast::strings_model(cells@),
            out@ + table_cells(cs.skip(k as int), alignments@.skip(k as int), tag, gfm) == old(
                out,
            )@ + table_cells(cs, alignments@, tag, gfm),
        decreases cells.len() - k,
    {
        let ghost before = out@;
        let ghost piece = cell_html(cells@[k as int]@, alignments@[k as int], tag, gfm);
        push_cell(out, &cells[k], alignments[k], header, gfm);
        assert(out@ =~= before + piece);
        let ghost cs_k = cs.skip(k as int);
        let ghost al_k = alignments@.skip(k as int);
        assert(cs_k.drop_first() =~= cs.skip(k + 1));
        assert(al_k.drop_first() =~= alignments@.skip(k + 1));
        assert(cs_k[0] == cells@[k as int]@);
        assert(al_k[0] == alignments@[k as int]);
        assert(table_cells(cs_k, al_k, tag, gfm) == piece + table_cells(
            cs.skip(k + 1),
            alignments@.skip(k + 1),
            tag,
            gfm,
        ));
        k += 1;
        assert(out@ + table_cells(cs.skip(k as int), alignments@.skip(k as int), tag, gfm)
            =~= before + table_cells(cs_k, al_k, tag, gfm));
    }
    assert(cs.skip(k as int).len() == 0 || alignments@.skip(k as int).len() == 0);
    assert(table_cells(cs.skip(k as int), alignments@.skip(k as int), tag, gfm) =~= Seq::<
        char,
    >::empty());
    assert(out@ =~= out@ + Seq::<char>::empty());
}

fn push_table(
    out: &mut Vec<char>,
    header: &Vec<String>,
    alignments: &Vec<TableAlignment>,
    rows: &Vec<Vec<String>>,
    gfm: bool,
)
    ensures
        final(out)@ == old(out)@ + "<table>\n<thead>\n<tr>"@ + table_cells(
            crate::ast::strings_model(header@),
            alignments@,
            "th"@,
            gfm,
        ) + "</tr>\n</thead>\n<tbody>\n"@ + table_rows_html(
            crate::ast::rows_model(rows@),
            alignments@,
            gfm,
        ) + "</tbody>\n</table>\n"@,
{
    let ghost rs = crate::ast::rows_model(rows@);
    append_str(out, "<table>\n<thead>\n<tr>");
    push_cells(out, header, alignments, true, gfm);
    append_str(out, "</tr>\n</thead>\n<tbody>\n");
    let ghost mid = out@;
    let mut k: usize = 0;
    while k < rows.len()
        invariant
            k <= rows.len(),
            rs == crate::ast::rows_model(rows@),
            out@ == mid + table_rows_html(rs.take(k as int), alignments@, gfm),
        decreases rows.len() - k,
    {
        append_str(out, "<tr>");
        push_cells(out, &rows[k], alignments, false, gfm);
        append_str(out, "</tr>\n");
        assert(rs.take(k + 1).drop_last() =~= rs.take(k as int));
        assert(rs.take(k + 1).last() == crate::ast::strings_model(rows@[k as int]@));
        k += 1;
        assert(out@ =~= mid + table_rows_html(rs.take(k as int), alignments@, gfm));
    }
    assert(rs.take(k as int) =~= rs);
    append_str(out, "</tbody>\n</table>\n");
    assert(out@ =~= old(out)@ + "<table>\n<thead>\n<tr>"@ + table_cells(
        crate::ast::strings_model(header@),
        alignments@,
        "th"@,
        gfm,
    ) + "</tr>\n</thead>\n<tbody>\n"@ + table_rows_html(rs, alignments@, gfm)
        + "</tbody>\n</table>\n"@);
}

fn push_item_open(out: &mut Vec<char>, checked: Option<bool>, gfm: bool)
    ensures
        final(out)@ == old(out)@ + item_open(checked, gfm),
{
    if gfm && checked.is_some() {
        append_str(out, "<li class=\"task-list-item\">");
    } else {
        append_str(out, "<li>");
    }
    let ghost mid = out@;
    match checked {
        Some(c) => {
            append_str(out, "<input type=\"checkbox\" disabled");
            if c {
                append_str(out, " checked");
            }
            append_str(out, "> ");
            assert(out@ =~= mid + ("<input type=\"checkbox\" disabled"@ + (if c {
                " checked"@
            } else {
                Seq::empty()
            }) + "> "@));
        },
        None => {},
    }
    assert(out@ =~= old(out)@ + item_open(checked, gfm));
}

fn push_heading(out: &mut Vec<char>, level: u8, content: &String, gfm: bool)
    ensures
        final(out)@ == old(out)@ + render_block(
            BlockModel::Heading { level, content: content@ },
            gfm,
        ),
{
    append_str(out, "<h");
    push_decimal(out, level as u64);
    append_str(out, ">");
    push_inline_str(out, content, gfm);
    append_str(out, "</h");
    push_decimal(out, level as u64);
    append_str(out, ">\n");
    assert(out@ =~= old(out)@ + render_block(BlockModel::Heading { level, content: content@ }, gfm));
}

fn push_code(out: &mut Vec<char>, language: &Option<String>, content: &String)
    ensures
        final(out)@ == old(out)@ + "<pre><code"@ + language_attr(
            match language {
                Some(l) => Some(l@),
                None => None,
            },
        ) + ">"@ + escape_text(content@) + "</code></pre>\n"@,
{
    append_str(out, "<pre><code");
    let ghost mid = out@;
    match language {
        Some(l) => {
            append_str(out, " class=\"language-");
            push_escaped_str(out, l);
            append_str(out, "\"");
            assert(out@ =~= mid + language_attr(Some(l@)));
        },
        None => {
            assert(out@ =~= mid + language_attr(None));
        },
    }
    append_str(out, ">");
    push_escaped_str(out, content);
    append_str(out, "</code></pre>\n");
    assert(out@ =~= old(out)@ + "<pre><code"@ + language_attr(
        match language {
            Some(l) => Some(l@),
            None => None,
        },
    ) + ">"@ + escape_text(content@) + "</code></pre>\n"@);
}

fn push_list(out: &mut Vec<char>, ordered: bool, items: &Vec<ListItem>, gfm: bool)
    ensures
        final(out)@ == old(out)@ + list_open(ordered) + render_items(
            items_model(items@),
            gfm,
        ) + list_close(ordered),
    decreases items, 1nat,
{
    if ordered {
        append_str(out, "<ol>\n");
    } else {
        append_str(out, "<ul>\n");
    }
    assert(out@ =~= old(out)@ + list_open(ordered));
    let ghost mid = out@;
    push_items(out, items, gfm);
    let ghost mid2 = out@;
    if ordered {
        append_str(out, "</ol>\n");
    } else {
        append_str(out, "</ul>\n");
    }
    assert(out@ =~= mid2 + list_close(ordered));
    assert(out@ =~= old(out)@ + list_open(ordered) + render_items(items_model(items@), gfm)
        + list_close(ordered));
}

fn push_quote(out: &mut Vec<char>, blocks: &Vec<Block>, gfm: bool)
    ensures
        final(out)@ == old(out)@ + "<blockquote>\n"@ + render_blocks(blocks_model(blocks@), gfm)
            + "</blockquote>\n"@,
    decreases blocks, 1nat,
{
    append_str(out, "<blockquote>\n");
    push_blocks(out, blocks, gfm);
    append_str(out, "</blockquote>\n");
    assert(out@ =~= old(out)@ + "<blockquote>\n"@ + render_blocks(blocks_model(blocks@), gfm)
        + "</blockquote>\n"@);
}

/// Appends the HTML of one block.
fn push_block(out: &mut Vec<char>, b: &Block, gfm: bool)
    ensures
        final(out)@ == old(out)@ + render_block(block_model(*b), gfm),
    decreases b, 2nat,
{
    match b {
        Block::Heading { level, content } => {
            push_heading(out, *level, content, gfm);
        },
        Block::Paragraph(content) => {
            append_str(out, "<p>");
            push_inline_str(out, content, gfm);
            append_str(out, "</p>\n");
            assert(out@ =~= old(out)@ + render_block(block_model(*b), gfm));
        },
        Block::CodeFence { language, content } => {
            push_code(out, language, content);
            assert(out@ =~= old(out)@ + render_block(block_model(*b), gfm));
        },
        Block::List { ordered, items, .. } => {
            push_list(out, *ordered, items, gfm);
            assert(out@ =~= old(out)@ + render_block(block_model(*b), gfm));
        },
        Block::BlockQuote(blocks) => {
            push_quote(out, blocks, gfm);
            assert(out@ =~= old(out)@ + render_block(block_model(*b), gfm));
        },
        Block::Table { header, alignments, rows } => {
            push_table(out, header, alignments, rows, gfm);
            assert(out@ =~= old(out)@ + render_block(block_model(*b), gfm));
        },
        Block::HorizontalRule => {
            append_str(out, "<hr />\n");
            assert(out@ =~= old(out)@ + render_block(block_model(*b), gfm));
        },
    }
}

/// Appends the HTML of blocks.
pub(crate) fn push_blocks(out: &mut Vec<char>, bs: &Vec<Block>, gfm: bool)
    ensures
        final(out)@ == old(out)@ + render_blocks(blocks_model(bs@), gfm),
    decreases bs, 0nat,
{
    let ghost ms = blocks_model(bs@);
    proof {
        lemma_blocks_model(bs@);
    }
    let mut k: usize = 0;
    while k < bs.len()
        invariant
            k <= bs.len(),
            ms == blocks_model(bs@),
            ms.len() == bs.len(),
            forall|i: int| 0 <= i < bs.len() ==> #[trigger] ms[i] == block_model(bs@[i]),
            out@ == old(out)@ + render_blocks(ms.take(k as int), gfm),
        decreases bs.len() - k,
    {
        push_block(out, &bs[k], gfm);
        assert(ms.take(k + 1).drop_last() =~= ms.take(k as int));
        k += 1;
        assert(out@ =~= old(out)@ + render_blocks(ms.take(k as int), gfm));
    }
    assert(ms.take(k as int) =~= ms);
}

/// Appends the HTML of list items.
fn push_items(out: &mut Vec<char>, items: &Vec<ListItem>, gfm: bool)
    ensures
        final(out)@ == old(out)@ + render_items(items_model(items@), gfm),
    decreases items, 0nat,
{
    let ghost ms = items_model(items@);
    proof {
        lemma_items_model(items@);
    }
    let mut k: usize = 0;
    while k < items.len()
        invariant
            k <= items.len(),
            ms == items_model(items@),
            ms.len() == items.len(),
            forall|i: int| 0 <= i < items.len() ==> #[trigger] ms[i] == item_model(items@[i]),
            out@ == old(out)@ + render_items(ms.take(k as int), gfm),
        decreases items.len() - k,
    {
        let item = &items[k];
        push_item_open(out, item.checked, gfm);
        push_item_blocks(out, &item.blocks, gfm);
        append_str(out, "</li>\n");
        assert(ms.take(k + 1).drop_last() =~= ms.take(k as int));
        k += 1;
        assert(out@ =~= old(out)@ + render_items(ms.take(k as int), gfm));
    }
    assert(ms.take(k as int) =~= ms);
}

/// Appends the HTML of a list item's blocks.
fn push_item_blocks(out: &mut Vec<char>, bs: &Vec<Block>, gfm: bool)
    ensures
        final(out)@ == old(out)@ + render_item_blocks(blocks_model(bs@), gfm),
    decreases bs, 0nat,
{
    let ghost ms = blocks_model(bs@);
    proof {
        lemma_blocks_model(bs@);
    }
    let mut k: usize = 0;
    while k < bs.len()
        invariant
            k <= bs.len(),
            ms == blocks_model(bs@),
            ms.len() == bs.len(),
            forall|i: int| 0 <= i < bs.len() ==> #[trigger] ms[i] == block_model(bs@[i]),
            out@ == old(out)@ + render_item_blocks(ms.take(k as int), gfm),
        decreases bs.len() - k,
    {
        let ghost before = out@;
        match &bs[k] {
            Block::Paragraph(content) => {
                push_inline_str(out, content, gfm);
            },
            other => {
                append_str(out, "\n");
                push_block(out, other, gfm);
            },
        }
        assert(ms.take(k + 1).drop_last() =~= ms.take(k as int));
        k += 1;
        assert(out@ =~= old(out)@ + render_item_blocks(ms.take(k as int), gfm));
    }
    assert(ms.take(k as int) =~= ms);
}

/// Renders a document as HTML.
pub fn render(document: &Document, options: Options) -> (html: String)
    ensures
        html@ == render_blocks(document.model(), options.gfm),
{
    let mut out: Vec<char> = Vec::new();
    push_blocks(&mut out, &document.blocks, options.gfm);
    assert(out@ =~= render_blocks(document.model(), options.gfm));
    to_string(&out)
}

} // verus!
