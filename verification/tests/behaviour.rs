use marked_rs::{
    parse, parse_document, parse_document_with_options, parse_with_options,
    try_parse_document_with_options, try_parse_with_options, Block, Document, EditError,
    IncrementalParser, ListItem, Options, StreamParser, TableAlignment,
};

fn gfm() -> Options {
    Options { gfm: true }
}

#[test]
fn options_default_to_the_core_parser() {
    assert_eq!(Options::default(), Options { gfm: false });
}

#[test]
fn tables_render_one_alignment_per_column() {
    assert_eq!(
        parse_with_options("| a | b | c | d |\n| :--- | :---: | ---: | --- |\n| 1 | 2 | 3 | 4 |", gfm()),
        "<table>\n<thead>\n<tr><th align=\"left\">a</th><th align=\"center\">b</th><th align=\"right\">c</th><th>d</th></tr>\n</thead>\n<tbody>\n<tr><td align=\"left\">1</td><td align=\"center\">2</td><td align=\"right\">3</td><td>4</td></tr>\n</tbody>\n</table>\n"
    );
}

#[test]
fn tables_keep_their_cells_in_the_document() {
    assert_eq!(
        parse_document_with_options("a | b\n--- | ---:\nx | *y*\nnot a row", gfm()),
        Document {
            blocks: vec![
                Block::Table {
                    header: vec!["a".to_owned(), "b".to_owned()],
                    alignments: vec![TableAlignment::Unaligned, TableAlignment::Right],
                    rows: vec![vec!["x".to_owned(), "*y*".to_owned()]],
                },
                Block::Paragraph("not a row".to_owned()),
            ],
        }
    );
}

#[test]
fn a_row_with_another_cell_count_ends_the_table() {
    assert_eq!(
        parse_with_options("| a | b |\n| --- | --- |\n| 1 |", gfm()),
        "<table>\n<thead>\n<tr><th>a</th><th>b</th></tr>\n</thead>\n<tbody>\n</tbody>\n</table>\n<p>| 1 |</p>\n"
    );
}

#[test]
fn tables_stay_text_without_gfm() {
    assert_eq!(
        parse("| a | b |\n| --- | --- |"),
        "<p>| a | b |\n| --- | --- |</p>\n"
    );
}

#[test]
fn task_items_render_disabled_checkboxes_with_gfm() {
    assert_eq!(
        parse_with_options("- [ ] todo\n- [x] done\n- [X] also\n- plain", gfm()),
        "<ul>\n<li class=\"task-list-item\"><input type=\"checkbox\" disabled> todo</li>\n<li class=\"task-list-item\"><input type=\"checkbox\" disabled checked> done</li>\n<li class=\"task-list-item\"><input type=\"checkbox\" disabled checked> also</li>\n<li>plain</li>\n</ul>\n"
    );
}

#[test]
fn task_markers_stay_text_without_gfm() {
    assert_eq!(parse("- [x] done"), "<ul>\n<li>[x] done</li>\n</ul>\n");
    assert_eq!(
        parse_document("- [ ] open"),
        Document {
            blocks: vec![Block::List {
                ordered: false,
                start: 1,
                items: vec![ListItem {
                    checked: None,
                    blocks: vec![Block::Paragraph("[ ] open".to_owned())],
                }],
            }],
        }
    );
}

#[test]
fn task_items_keep_their_state_in_the_document() {
    assert_eq!(
        parse_document_with_options("- [x] done", gfm()),
        Document {
            blocks: vec![Block::List {
                ordered: false,
                start: 1,
                items: vec![ListItem {
                    checked: Some(true),
                    blocks: vec![Block::Paragraph("done".to_owned())],
                }],
            }],
        }
    );
}

#[test]
fn strikethrough_renders_only_with_gfm() {
    assert_eq!(parse_with_options("~~gone~~ stays", gfm()), "<p><del>gone</del> stays</p>\n");
    assert_eq!(parse("~~gone~~ stays"), "<p>~~gone~~ stays</p>\n");
}

#[test]
fn setext_underlines_make_headings() {
    assert_eq!(parse("Title\n=====\n\nSub\n---"), "<h1>Title</h1>\n<h2>Sub</h2>\n");
}

#[test]
fn atx_headings_drop_closing_hashes() {
    assert_eq!(parse("### Deep ###"), "<h3>Deep</h3>\n");
    assert_eq!(parse("####### seven"), "<p>####### seven</p>\n");
}

#[test]
fn nested_lists_render_inside_their_item() {
    assert_eq!(
        parse("- outer\n  - inner\n- next"),
        "<ul>\n<li>outer\n<ul>\n<li>inner</li>\n</ul>\n</li>\n<li>next</li>\n</ul>\n"
    );
}

#[test]
fn block_quotes_nest_blocks() {
    assert_eq!(
        parse("> # Head\n> > deeper"),
        "<blockquote>\n<h1>Head</h1>\n<blockquote>\n<p>deeper</p>\n</blockquote>\n</blockquote>\n"
    );
}

#[test]
fn tilde_fences_close_only_with_a_long_enough_marker() {
    assert_eq!(
        parse("~~~~ text\na\n~~~\nb\n~~~~\nafter"),
        "<pre><code class=\"language-text\">a\n~~~\nb\n</code></pre>\n<p>after</p>\n"
    );
}

#[test]
fn rules_accept_spaced_markers() {
    assert_eq!(parse("* * *\n\n___"), "<hr />\n<hr />\n");
}

#[test]
fn paragraph_lines_lose_their_leading_whitespace() {
    assert_eq!(parse("Intro\n    indented"), "<p>Intro\nindented</p>\n");
}

#[test]
fn ordered_lists_keep_their_first_number_in_the_document() {
    assert_eq!(
        parse_document("18446744073709551615. max"),
        Document {
            blocks: vec![Block::List {
                ordered: true,
                start: u64::MAX,
                items: vec![ListItem {
                    checked: None,
                    blocks: vec![Block::Paragraph("max".to_owned())],
                }],
            }],
        }
    );
}

#[test]
fn list_numbers_beyond_u64_do_not_parse() {
    assert_eq!(try_parse_with_options("18446744073709551616. big", Options::default()), None);
    assert_eq!(try_parse_document_with_options("text\n99999999999999999999. big", Options::default()), None);
}

#[test]
fn a_dedent_inside_a_multibyte_space_does_not_parse() {
    assert_eq!(try_parse_with_options("- a\n\u{3000}b", Options::default()), None);
    assert_eq!(
        try_parse_with_options("- a\n   b", Options::default()),
        Some("<ul>\n<li>a\nb</li>\n</ul>\n".to_owned())
    );
}

#[test]
fn try_parse_agrees_with_parse_when_it_succeeds() {
    let source = "# T\n\n1. a\n2. b\n\n> q";
    assert_eq!(try_parse_with_options(source, Options::default()), Some(parse(source)));
    assert_eq!(
        try_parse_document_with_options(source, Options::default()),
        Some(parse_document(source))
    );
}

#[test]
fn raw_html_and_quotes_are_escaped_everywhere() {
    assert_eq!(parse("# <b>&\"</b>"), "<h1>&lt;b&gt;&amp;&quot;&lt;/b&gt;</h1>\n");
    assert_eq!(
        parse("```a<b\nx\n```"),
        "<pre><code class=\"language-a&lt;b\">x\n</code></pre>\n"
    );
}

#[test]
fn plain_text_renders_as_escaped_text() {
    assert_eq!(parse("just words & more"), "<p>just words &amp; more</p>\n");
}

#[test]
fn empty_input_renders_nothing() {
    assert_eq!(parse(""), "");
    assert_eq!(parse("\n  \n\t\n"), "");
    assert_eq!(parse_document(""), Document { blocks: vec![] });
}

#[test]
fn carriage_returns_end_lines_too() {
    assert_eq!(parse("# A\r\n\r\nb\r\n"), "<h1>A</h1>\n<p>b</p>\n");
}

#[test]
fn stream_output_does_not_depend_on_where_chunks_split() {
    let source = "# Head\n\n```\ncode\n\nmore\n```\n\n> q\n> r\n\n- a\n- b\n\ntail";
    let whole = {
        let mut stream = StreamParser::new();
        let mut html = stream.push(source);
        html.push_str(&stream.finish());
        html
    };
    for split in 0..=source.len() {
        let mut stream = StreamParser::new();
        let mut html = stream.push(&source[..split]);
        html.push_str(&stream.push(&source[split..]));
        html.push_str(&stream.finish());
        assert_eq!(html, whole, "split at {}", split);
    }
    let mut stream = StreamParser::new();
    let mut html = String::new();
    for ch in source.chars() {
        html.push_str(&stream.push(&ch.to_string()));
    }
    html.push_str(&stream.finish());
    assert_eq!(html, whole);
}

#[test]
fn a_blank_line_emits_the_group_before_it() {
    let mut stream = StreamParser::new();
    assert_eq!(stream.push("# H\nline"), "");
    assert_eq!(stream.push("\n\n"), "<h1>H</h1>\n<p>line</p>\n");
    assert_eq!(stream.push("rest"), "");
    assert_eq!(stream.finish(), "<p>rest</p>\n");
}

#[test]
fn an_open_fence_holds_blank_lines_back() {
    let mut stream = StreamParser::default();
    assert_eq!(stream.push("~~~\na\n\n\nb\n"), "");
    assert_eq!(stream.push("```\n\n"), "");
    assert_eq!(stream.push("~~~\n\n"), "<pre><code>a\n\n\nb\n```\n\n</code></pre>\n");
}

#[test]
fn finishing_an_empty_stream_renders_nothing() {
    assert_eq!(StreamParser::new().finish(), "");
    let mut stream = StreamParser::new();
    assert_eq!(stream.push("\n\n"), "");
    assert_eq!(stream.finish(), "");
}

#[test]
fn incremental_documents_render_on_creation() {
    let document = IncrementalParser::new("*hi*");
    assert_eq!(document.source(), "*hi*");
    assert_eq!(document.html(), "<p><em>hi</em></p>\n");
}

#[test]
fn incremental_edits_can_insert_and_delete() {
    let mut document = IncrementalParser::new("a");
    assert_eq!(document.replace(0..0, "# ").unwrap(), "<h1>a</h1>\n");
    assert_eq!(document.source(), "# a");
    assert_eq!(document.replace(0..2, "").unwrap(), "<p>a</p>\n");
    assert_eq!(document.source(), "a");
    assert_eq!(document.replace(1..1, "\n\nb").unwrap(), "<p>a</p>\n<p>b</p>\n");
}

#[test]
fn a_reversed_edit_range_is_out_of_bounds() {
    let mut document = IncrementalParser::new("abc");
    let range = 2..1;
    assert_eq!(document.replace(range, "x"), Err(EditError::OutOfBounds));
    assert_eq!(document.source(), "abc");
}

#[test]
fn edit_errors_describe_themselves() {
    assert_eq!(EditError::OutOfBounds.message(), "edit range is outside the source");
    assert_eq!(
        EditError::InvalidUtf8Boundary.message(),
        "edit range does not fall on UTF-8 character boundaries"
    );
}

#[test]
fn divider_cells_need_three_dashes() {
    assert_eq!(
        parse_with_options("| a |\n| :-: |", gfm()),
        "<p>| a |\n| :-: |</p>\n"
    );
}

#[test]
fn documents_clone_to_equal_trees() {
    let document = parse_document_with_options(
        "# T\n\n- [x] a\n  > q\n\n| h | i |\n| --- | :---: |\n| 1 | 2 |\n\n```rs\nx\n```",
        gfm(),
    );
    assert_eq!(document.clone(), document);
    assert_eq!(document.blocks[1].clone(), document.blocks[1]);
}

fn every_angle_opens_a_known_tag(html: &str) -> bool {
    let names = [
        "p>", "pre>", "code>", "code ", "ul>", "ol>", "li>", "li ", "input ", "blockquote>",
        "table>", "thead>", "tbody>", "tr>", "th>", "th ", "td>", "td ", "hr ", "a>", "a ",
        "img ", "strong>", "em>", "del>",
    ];
    let chars: Vec<char> = html.chars().collect();
    (0..chars.len()).filter(|&i| chars[i] == '<').all(|i| {
        let after: String = chars[i + 1..].iter().collect();
        let name = after.strip_prefix('/').unwrap_or(&after);
        let heading = ["h1>", "h2>", "h3>", "h4>", "h5>", "h6>"].iter().any(|h| name.starts_with(h));
        heading || names.iter().any(|n| name.starts_with(n))
    })
}

#[test]
fn raw_html_never_reaches_the_output_as_markup() {
    let sources = [
        "<script>alert(1)</script>",
        "# <h1>x</h1>\n\n- <li>\n- [<a>](<b>)\n\n> <blockquote>",
        "```<pre>\n</code><img>\n```",
        "| <th> | b |\n| --- | :---: |\n| <td> | ![<img](<x>) |\n\n- [ ] <input>",
        "**<b>** *<i>* ~~<s>~~ `<code>` __<u>__ _<em>_",
    ];
    for source in sources {
        for options in [Options::default(), gfm()] {
            let html = parse_with_options(source, options);
            assert!(every_angle_opens_a_known_tag(&html), "{}", html);
            assert!(!html.contains("<script") && !html.contains("<b>") && !html.contains("<x>"));
        }
    }
    assert!(!every_angle_opens_a_known_tag("<p>ok</p><script>"));
}

#[test]
fn a_stream_without_blank_lines_renders_everything_at_finish() {
    let source = "# a\nb\n```\nc\n```\n- d";
    let mut stream = StreamParser::new();
    assert_eq!(stream.push("# a\nb\n``"), "");
    assert_eq!(stream.push("`\nc\n```\n- d"), "");
    assert_eq!(stream.finish(), parse(source));
}

#[test]
fn heading_levels_stop_at_six() {
    assert_eq!(
        parse_document("###### six\n####### seven\n\n> # one\n\nsub\n---"),
        Document {
            blocks: vec![
                Block::Heading { level: 6, content: "six".to_owned() },
                Block::Paragraph("####### seven".to_owned()),
                Block::BlockQuote(vec![Block::Heading { level: 1, content: "one".to_owned() }]),
                Block::Heading { level: 2, content: "sub".to_owned() },
            ],
        }
    );
}

#[test]
fn a_stream_renders_each_block_group_on_its_own() {
    let groups = ["# a\n\n", "```\nx\n\ny\n```\n \n", "- b\n\n", "\n", "z"];
    let source: String = groups.concat();
    let expected: String = groups
        .iter()
        .map(|g| if g.trim().is_empty() { String::new() } else { parse(g) })
        .collect();
    for split in 0..=source.len() {
        let mut stream = StreamParser::new();
        let mut html = stream.push(&source[..split]);
        html.push_str(&stream.push(&source[split..]));
        html.push_str(&stream.finish());
        assert_eq!(html, expected, "split at {}", split);
    }
}

#[test]
fn a_chunk_without_a_line_break_renders_nothing() {
    let mut stream = StreamParser::new();
    assert_eq!(stream.push("# a\n\npar"), "<h1>a</h1>\n");
    assert_eq!(stream.push("tial"), "");
    assert_eq!(stream.push(" line"), "");
    assert_eq!(stream.finish(), "<p>partial line</p>\n");
}
