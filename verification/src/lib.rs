//! `marked_rs` is a compact Markdown-to-HTML parser with a deliberately small
//! surface area. It supports the most common Markdown blocks and inline
//! constructs, and optionally a subset of GitHub-Flavored Markdown.

mod ast;
mod grammar;
mod inline;
mod markup;
mod parser;
mod renderer;
mod streaming;
mod text;
mod tokenizer;

pub use ast::{Block, BlockModel, Document, ItemModel, ListItem, TableAlignment};
pub use streaming::{EditError, IncrementalParser, StreamModel, StreamParser};

use vstd::prelude::*;

use crate::grammar::{
    blocks, gfm_free_seq, is_ascii_letter, is_rule, lemma_blocks_gfm_free,
    lemma_blocks_heading_levels, lemma_body_lines, lemma_fence_block, lemma_loose_list,
    lemma_paragraph_then_table, levels_in_range_seq, split_table_row, table,
};
use crate::markup::{law_rendered_html_is_safe, safe_html};
use crate::renderer::render_blocks;
use crate::text::{
    lemma_split_lines_cons, lemma_split_lines_single, split_lines, strip_cr, trim,
};
use crate::tokenizer::tokenize;

verus! {

/// Optional parser features. The default stays close to the small core parser.
#[derive(Debug, Clone, Copy, PartialEq, Eq)]
pub struct Options {
    /// Enable GitHub-Flavored Markdown tables, task lists, and strikethrough.
    pub gfm: bool,
}

impl Default for Options {
    fn default() -> (o: Options)
        ensures
            o.gfm == false,
    {
        Options { gfm: false }
    }
}

/// The blocks of a Markdown text, or `None` when block parsing fails on it
/// (an ordered list number beyond `u64`, or a list continuation line whose
/// dedent falls inside a multi-byte whitespace character).
pub open spec fn document_model(markdown: Seq<char>, options: Options) -> Option<Seq<BlockModel>> {
    blocks(split_lines(markdown), options.gfm)
}

/// The HTML of a Markdown text, when it parses.
pub open spec fn html_of(markdown: Seq<char>, options: Options) -> Option<Seq<char>> {
    match document_model(markdown, options) {
        Some(bs) => Some(render_blocks(bs, options.gfm)),
        None => None,
    }
}

/// Whether a Markdown text parses.
pub open spec fn parses(markdown: Seq<char>, options: Options) -> bool {
    document_model(markdown, options) is Some
}

/// The HTML of a Markdown text is the rendering of its document: what
/// `parse_with_options` gives is what `renderer::render` gives for what
/// `parse_document_with_options` gives.
pub proof fn law_html_is_rendered_document(markdown: Seq<char>, options: Options)
    ensures
        html_of(markdown, options) == match document_model(markdown, options) {
            Some(bs) => Some(render_blocks(bs, options.gfm)),
            None => None::<Seq<char>>,
        },
{
}

/// GitHub-Flavored Markdown is opt-in: a document parsed without it holds
/// no table and no task-list item, at any depth.
pub proof fn law_core_parse_has_no_gfm(markdown: Seq<char>)
    ensures
        document_model(markdown, (Options { gfm: false })) matches Some(bs) ==> gfm_free_seq(bs),
{
    lemma_blocks_gfm_free(split_lines(markdown), 0);
}

/// Headings come in six levels: every heading of a parsed document, at any
/// depth, has a level from 1 to 6.
pub proof fn law_heading_levels_are_one_to_six(markdown: Seq<char>, options: Options)
    ensures
        document_model(markdown, options) matches Some(bs) ==> levels_in_range_seq(bs),
{
    lemma_blocks_heading_levels(split_lines(markdown), 0, options.gfm);
}

/// Markdown becomes safe HTML: every `<` in the HTML of a text opens or
/// closes an element that the renderer writes, so no raw HTML of the source
/// gets through.
pub proof fn law_parsed_html_is_safe(markdown: Seq<char>, options: Options)
    ensures
        html_of(markdown, options) matches Some(html) ==> safe_html(html),
{
    lemma_blocks_heading_levels(split_lines(markdown), 0, options.gfm);
    if let Some(bs) = document_model(markdown, options) {
        law_rendered_html_is_safe(bs, options.gfm);
    }
}

/// With GitHub-Flavored Markdown a table ends the paragraph right above it:
/// a text line (starting with an ASCII letter, without `|`) followed by the
/// header row (starting with `|`) and the divider row of a table parses as
/// that paragraph and then the table.
pub proof fn law_table_ends_paragraph(p: Seq<char>, h: Seq<char>, d: Seq<char>)
    requires
        p.len() > 0,
        is_ascii_letter(p[0]),
        !p.contains('|'),
        h.len() > 0,
        h[0] == '|',
        !p.contains('\n') && !h.contains('\n') && !d.contains('\n'),
        !p.contains('\r') && !h.contains('\r') && !d.contains('\r'),
        table(seq![h, d], 0) is Some,
    ensures
        document_model(p + seq!['\n'] + h + seq!['\n'] + d, (Options { gfm: true })) == Some(
            seq![BlockModel::Paragraph(p), (table(seq![h, d], 0)->0).0],
        ),
{
    let md = p + seq!['\n'] + h + seq!['\n'] + d;
    assert(md =~= p + seq!['\n'] + (h + seq!['\n'] + d));
    lemma_split_lines_cons(p, h + seq!['\n'] + d);
    lemma_split_lines_cons(h, d);
    if d.len() == 0 {
        assert(trim(d).len() == 0);
        assert(split_table_row(d) is None);
    }
    lemma_split_lines_single(d);
    assert(strip_cr(p) == p) by {
        if p.len() > 0 && p.last() == '\r' {
            assert(p.contains('\r'));
        }
    }
    assert(strip_cr(h) == h) by {
        if h.len() > 0 && h.last() == '\r' {
            assert(h.contains('\r'));
        }
    }
    assert(split_lines(md) =~= seq![p, h, d]);
    lemma_paragraph_then_table(p, h, d);
}

/// The content of a fenced code block is its lines verbatim, leading
/// whitespace included: an opening line of three backticks and a language,
/// then any lines without backticks, each ending with a line break, then a
/// closing line of three backticks parse as one code block whose content is
/// exactly the text of those lines.
pub proof fn law_fenced_code_is_verbatim(lang: Seq<char>, body: Seq<char>, options: Options)
    requires
        !lang.contains('`') && !lang.contains('|') && !lang.contains('\n') && !lang.contains('\r'),
        !body.contains('`') && !body.contains('\r'),
        body.len() == 0 || body.last() == '\n',
    ensures
        document_model(
            seq!['`', '`', '`'] + lang + seq!['\n'] + body + seq!['`', '`', '`'],
            options,
        ) == Some(
            seq![
                BlockModel::CodeFence {
                    language: if trim(lang).len() == 0 {
                        None
                    } else {
                        Some(trim(lang))
                    },
                    content: body,
                },
            ],
        ),
{
    let close = seq!['`', '`', '`'];
    let f = close + lang;
    let md = close + lang + seq!['\n'] + body + close;
    assert(md =~= f + seq!['\n'] + (body + close));
    assert(!f.contains('\n')) by {
        assert forall|j: int| 0 <= j < f.len() implies f[j] != '\n' by {
            if j >= 3 {
                assert(f[j] == lang[j - 3]);
            }
        }
    }
    lemma_split_lines_cons(f, body + close);
    assert(strip_cr(f) == f) by {
        if lang.len() > 0 {
            assert(f.last() == lang.last());
            assert(lang.contains(lang.last()));
        }
    }
    let lines = lemma_body_lines(body);
    assert(split_lines(md) =~= seq![f] + lines + seq![close]);
    lemma_fence_block(lang, lines, options.gfm);
}

/// A blank line between two items of the same kind does not end the list:
/// `- x`, a blank line and `- y` parse as one list of two items, each
/// holding the blocks that its text parses to on its own.
pub proof fn law_blank_line_keeps_list(x: Seq<char>, y: Seq<char>)
    requires
        !x.contains('\n') && !x.contains('\r'),
        !y.contains('\n') && !y.contains('\r'),
        !is_rule(seq!['-', ' '] + x),
    ensures
        document_model(
            seq!['-', ' '] + x + seq!['\n', '\n', '-', ' '] + y,
            (Options { gfm: false }),
        ) == match (
            document_model(x, (Options { gfm: false })),
            document_model(y, (Options { gfm: false })),
        ) {
            (Some(bx), Some(by)) => Some(
                seq![
                    BlockModel::List {
                        ordered: false,
                        start: 1,
                        items: seq![
                            ItemModel { checked: None, blocks: bx },
                            ItemModel { checked: None, blocks: by },
                        ],
                    },
                ],
            ),
            _ => None,
        },
{
    let l0 = seq!['-', ' '] + x;
    let l2 = seq!['-', ' '] + y;
    let empty = Seq::<char>::empty();
    let md = seq!['-', ' '] + x + seq!['\n', '\n', '-', ' '] + y;
    assert(md =~= l0 + seq!['\n'] + (empty + seq!['\n'] + l2));
    assert(!l0.contains('\n')) by {
        assert forall|j: int| 0 <= j < l0.len() implies l0[j] != '\n' by {
            if j >= 2 {
                assert(l0[j] == x[j - 2]);
            }
        }
    }
    assert(!l2.contains('\n')) by {
        assert forall|j: int| 0 <= j < l2.len() implies l2[j] != '\n' by {
            if j >= 2 {
                assert(l2[j] == y[j - 2]);
            }
        }
    }
    lemma_split_lines_cons(l0, empty + seq!['\n'] + l2);
    lemma_split_lines_cons(empty, l2);
    lemma_split_lines_single(l2);
    assert(strip_cr(l0) == l0) by {
        if x.len() > 0 {
            assert(l0.last() == x.last());
            assert(x.contains(x.last()));
        }
    }
    assert(strip_cr(empty) == empty);
    assert(split_lines(md) =~= seq![l0, empty, l2]);
    lemma_loose_list(x, y);
}

/// Parses Markdown into a document with explicitly selected parser
/// features, or `None` when it does not parse.
pub fn try_parse_document_with_options(markdown: &str, options: Options) -> (r: Option<Document>)
    ensures
        r matches Some(doc) ==> document_model(markdown@, options) == Some(doc.model()),
        r is None ==> !parses(markdown@, options),
{
    let lines = tokenize(markdown);
    parser::try_parse(&lines, options)
}

/// Converts Markdown to HTML with explicitly selected parser features, or
/// `None` when it does not parse.
pub fn try_parse_with_options(markdown: &str, options: Options) -> (r: Option<String>)
    ensures
        r matches Some(html) ==> html_of(markdown@, options) == Some(html@),
        r is None ==> !parses(markdown@, options),
{
    match try_parse_document_with_options(markdown, options) {
        None => None,
        Some(document) => Some(renderer::render(&document, options)),
    }
}

/// Parses Markdown into a document with explicitly selected parser features.
pub fn parse_document_with_options(markdown: &str, options: Options) -> (doc: Document)
    requires
        parses(markdown@, options),
    ensures
        document_model(markdown@, options) == Some(doc.model()),
{
    let lines = tokenize(markdown);
    parser::parse(lines, options)
}

/// Parses Markdown into the block-level document representation.
///
/// This is useful when a caller wants to inspect the parser output before it is
/// rendered, or add a custom renderer later.
pub fn parse_document(markdown: &str) -> (doc: Document)
    requires
        parses(markdown@, (Options { gfm: false })),
    ensures
        document_model(markdown@, (Options { gfm: false })) == Some(doc.model()),
{
    parse_document_with_options(markdown, Options::default())
}

/// Converts Markdown to HTML with explicitly selected parser features.
pub fn parse_with_options(markdown: &str, options: Options) -> (html: String)
    requires
        parses(markdown@, options),
    ensures
        html_of(markdown@, options) == Some(html@),
{
    let document = parse_document_with_options(markdown, options);
    renderer::render(&document, options)
}

/// Converts Markdown source to HTML.
pub fn parse(markdown: &str) -> (html: String)
    requires
        parses(markdown@, (Options { gfm: false })),
    ensures
        html_of(markdown@, (Options { gfm: false })) == Some(html@),
{
    parse_with_options(markdown, Options::default())
}

/// The HTML of a Markdown text given as characters, when it parses.
pub(crate) fn html_of_chars(markdown: &Vec<char>, options: Options) -> (r: Option<Vec<char>>)
    ensures
        r matches Some(html) ==> html_of(markdown@, options) == Some(html@),
        r is None ==> !parses(markdown@, options),
{
    let lines = text::lines_of(markdown);
    match parser::parse_lines(&lines, options.gfm) {
        None => None,
        Some(bs) => {
            let mut out: Vec<char> = Vec::new();
            renderer::push_blocks(&mut out, &bs, options.gfm);
            assert(out@ =~= render_blocks(ast::blocks_model(bs@), options.gfm));
            Some(out)
        },
    }
}

} // verus!
