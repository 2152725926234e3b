//! The block parser: lines to blocks, following the grammar in `grammar`.
use vstd::prelude::*;

use crate::ast::{block_model, blocks_model, Block, BlockModel, Document, ListItem, TableAlignment};
use crate::tokenizer::{line_texts, Line};
use crate::Options;
use crate::grammar::{
    blocks, blocks_from, cell_alignment, concat_lines, fence_end, fence_opening, heading,
    interrupts_paragraph, is_fence_closing, is_rule, item_continuation, items_blocks,
    items_weight, lemma_fence_end, lemma_item_continuation, lemma_list_items_weight,
    lemma_list_starts, lemma_paragraph_end, lemma_paragraph_starts, lemma_quote_end,
    lemma_quote_weight, lemma_table_rows, lemma_weight_skip, list_items, list_marker,
    non_ws, paragraph_end, prepend, quote_content, quote_end, quote_lines, setext_heading, split_table_row,
    table, table_divider, table_rows, task_marker, trim_all, trim_starts, weight, FenceModel,
    MarkerModel, RawItem,
};
use crate::text::{
    all_in, all_of, char_index, digits_value, is_ascii_ws, join_lines, join_with_newlines,
    lemma_run_end, lines_of, occurs_at, occurs_in, pattern1, pattern2, run_end, scan_run, slice,
    split, split_lines, split_on, starts_with, to_chars, to_string, trim, trim_start, trimmed, trimmed_char,
    trimmed_end_char, trimmed_start, utf8_len, utf8_width, views, width_of, CharClass,
};

verus! {

// ---------------------------------------------------------------------------
// Single-line recognisers
// ---------------------------------------------------------------------------

fn is_ascii_whitespace(c: char) -> (b: bool)
    ensures
        b == is_ascii_ws(c),
{
    c == ' ' || c == '\t' || c == '\n' || c == '\x0C' || c == '\r'
}

/// The ATX heading a line holds: its level and content.
fn heading_of(line: &Vec<char>) -> (r: Option<(u8, Vec<char>)>)
    ensures
        r matches Some((level, content)) ==> heading(line@) == Some((level, content@)),
        r is None ==> heading(line@) is None,
{
    let t = trimmed_start(line);
    let level = scan_run(&t, 0, CharClass::Is('#'));
    if 1 <= level && level <= 6 && level < t.len() && is_ascii_whitespace(t[level]) {
        let a = slice(&t, level, t.len());
        let b = trimmed(&a);
        let c = trimmed_end_char(&b, '#');
        let d = trimmed(&c);
        Some((level as u8, d))
    } else {
        None
    }
}

/// An opening code fence.
struct Fence {
    marker: char,
    length: usize,
    language: Option<Vec<char>>,
}

spec fn fence_matches(f: Fence, m: FenceModel) -> bool {
    &&& f.marker == m.marker
    &&& f.length == m.length
    &&& match (f.language, m.language) {
        (Some(a), Some(b)) => a@ == b,
        (None, None) => true,
        _ => false,
    }
}

fn fence_of(line: &Vec<char>) -> (r: Option<Fence>)
    ensures
        r matches Some(f) ==> fence_opening(line@) matches Some(m) && fence_matches(f, m),
        r is None ==> fence_opening(line@) is None,
{
    let t = trimmed_start(line);
    if t.len() == 0 || (t[0] != '`' && t[0] != '~') {
        return None;
    }
    let marker = t[0];
    let length = scan_run(&t, 0, CharClass::Is(marker));
    let rest = slice(&t, length, t.len());
    let language = trimmed(&rest);
    if length < 3 {
        None
    } else {
        Some(
            Fence {
                marker,
                length,
                language: if language.len() == 0 {
                    None
                } else {
                    Some(language)
                },
            },
        )
    }
}

fn closes_fence(line: &Vec<char>, marker: char, length: usize) -> (b: bool)
    ensures
        b == is_fence_closing(line@, marker, length as nat),
{
    let t = trimmed_start(line);
    let n = scan_run(&t, 0, CharClass::Is(marker));
    n >= length && all_of(&t, n, CharClass::Whitespace)
}

fn is_rule_line(line: &Vec<char>) -> (b: bool)
    ensures
        b == is_rule(line@),
{
    let mut c: Vec<char> = Vec::new();
    let mut i: usize = 0;
    while i < line.len()
        invariant
            i <= line.len(),
            c@ == non_ws(line@.take(i as int)),
        decreases line.len() - i,
    {
        let x = line[i];
        assert(line@.take(i + 1).drop_last() =~= line@.take(i as int));
        if !crate::text::is_whitespace(x) {
            c.push(x);
        }
        i += 1;
    }
    assert(line@.take(i as int) =~= line@);
    if c.len() < 3 {
        return false;
    }
    let first = c[0];
    assert(c@.skip(0) =~= c@);
    (first == '-' || first == '*' || first == '_') && all_of(&c, 0, CharClass::Is(first))
}

/// A list item marker.
struct Marker {
    ordered: bool,
    start: u64,
    indent: u128,
    content: Vec<char>,
}

spec fn marker_matches(m: Marker, s: MarkerModel) -> bool {
    &&& m.ordered == s.ordered
    &&& m.start == s.start
    &&& m.indent == s.indent
    &&& m.content@ == s.content
}

/// The value of the ASCII digits `s[..d]`, when it fits in `u64`.
fn digits_u64(s: &Vec<char>, d: usize) -> (r: Option<u64>)
    requires
        d <= s.len(),
        all_in(s@.take(d as int), CharClass::AsciiDigit),
    ensures
        r matches Some(v) ==> v == digits_value(s@.take(d as int)),
        r is None ==> digits_value(s@.take(d as int)) > u64::MAX,
{
    let mut v: u64 = 0;
    let mut i: usize = 0;
    while i < d
        invariant
            i <= d <= s.len(),
            all_in(s@.take(d as int), CharClass::AsciiDigit),
            v == digits_value(s@.take(i as int)),
        decreases d - i,
    {
        assert(s@.take(i + 1).drop_last() =~= s@.take(i as int));
        assert(s@.take(d as int)[i as int] == s@[i as int]);
        let digit = (s[i] as u32 - 48) as u64;
        match v.checked_mul(10) {
            None => {
                proof {
                    lemma_digits_value_grows(s@, i as int + 1, d as int);
                }
                return None;
            },
            Some(t) => match t.checked_add(digit) {
                None => {
                    proof {
                        lemma_digits_value_grows(s@, i as int + 1, d as int);
                    }
                    return None;
                },
                Some(u) => {
                    v = u;
                },
            },
        }
        i += 1;
    }
    Some(v)
}

/// The value of a longer digit prefix is at least that of a shorter one.
proof fn lemma_digits_value_grows(s: Seq<char>, a: int, b: int)
    requires
        0 <= a <= b <= s.len(),
        all_in(s.take(b), CharClass::AsciiDigit),
    ensures
        digits_value(s.take(a)) <= digits_value(s.take(b)),
    decreases b - a,
{
    if a < b {
        lemma_digits_value_grows(s, a, b - 1);
        assert(s.take(b).drop_last() =~= s.take(b - 1));
        assert(s.take(b)[b - 1] == s[b - 1]);
        assert(all_in(s.take(b - 1), CharClass::AsciiDigit)) by {
            assert forall|i: int| 0 <= i < s.take(b - 1).len() implies in_digit(
                #[trigger] s.take(b - 1)[i],
            ) by {
                assert(s.take(b - 1)[i] == s.take(b)[i]);
            }
        }
    }
}

spec fn in_digit(c: char) -> bool {
    crate::text::in_class(c, CharClass::AsciiDigit)
}

fn marker_of(line: &Vec<char>) -> (r: Option<Option<Marker>>)
    ensures
        r matches Some(Some(m)) ==> list_marker(line@) matches Some(Some(s)) && marker_matches(
            m,
            s,
        ),
        r matches Some(None) ==> list_marker(line@) == Some(None::<MarkerModel>),
        r is None ==> list_marker(line@) is None,
{
    let k = scan_run(line, 0, CharClass::Whitespace);
    let indent = utf8_width(line, k);
    let content = slice(line, k, line.len());
    assert(content@ =~= line@.skip(k as int));
    if starts_with(&content, &pattern2('-', ' ')) || starts_with(&content, &pattern2('*', ' '))
        || starts_with(&content, &pattern2('+', ' ')) {
        let rest = slice(&content, 2, content.len());
        return Some(Some(Marker { ordered: false, start: 1, indent, content: rest }));
    }
    let d = scan_run(&content, 0, CharClass::AsciiDigit);
    assert(content@.subrange(0, content@.len() as int) =~= content@);
    if d == 0 || !occurs_in(&content, 0, content.len(), &pattern2('.', ' '), d) {
        return Some(None);
    }
    proof {
        lemma_run_end(content@, 0, CharClass::AsciiDigit);
        assert forall|i: int| 0 <= i < content@.take(d as int).len() implies in_digit(
            #[trigger] content@.take(d as int)[i],
        ) by {
            assert(content@.take(d as int)[i] == content@[i]);
        }
    }
    match digits_u64(&content, d) {
        None => None,
        Some(start) => {
            let rest = slice(&content, d + 2, content.len());
            Some(Some(Marker { ordered: true, start, indent, content: rest }))
        },
    }
}

fn quote_of(line: &Vec<char>) -> (r: Option<Vec<char>>)
    ensures
        r matches Some(q) ==> quote_content(line@) == Some(q@),
        r is None ==> quote_content(line@) is None,
{
    let t = trimmed_start(line);
    if t.len() > 0 && t[0] == '>' {
        let from = if t.len() > 1 && t[1] == ' ' {
            2
        } else {
            1
        };
        let r = slice(&t, from, t.len());
        assert(r@ =~= quote_content(line@)->0);
        Some(r)
    } else {
        None
    }
}

fn task_of(content: Vec<char>, gfm: bool) -> (r: (Option<bool>, Vec<char>))
    ensures
        task_marker(content@, gfm) == (r.0, r.1@),
{
    if !gfm {
        return (None, content);
    }
    let mut p: Vec<char> = Vec::new();
    p.push('[');
    p.push(' ');
    p.push(']');
    p.push(' ');
    assert(p@ =~= seq!['[', ' ', ']', ' ']);
    if starts_with(&content, &p) {
        return (Some(false), slice(&content, 4, content.len()));
    }
    p.set(1, 'x');
    assert(p@ =~= seq!['[', 'x', ']', ' ']);
    if starts_with(&content, &p) {
        return (Some(true), slice(&content, 4, content.len()));
    }
    p.set(1, 'X');
    assert(p@ =~= seq!['[', 'X', ']', ' ']);
    if starts_with(&content, &p) {
        return (Some(true), slice(&content, 4, content.len()));
    }
    (None, content)
}

// ---------------------------------------------------------------------------
// Tables
// ---------------------------------------------------------------------------

/// Each piece trimmed.
fn trim_each(pieces: &Vec<Vec<char>>) -> (r: Vec<Vec<char>>)
    ensures
        views(r@) == trim_all(views(pieces@)),
{
    let mut r: Vec<Vec<char>> = Vec::new();
    let mut i: usize = 0;
    while i < pieces.len()
        invariant
            i <= pieces.len(),
            r@.len() == i,
            forall|k: int| 0 <= k < i ==> #[trigger] r@[k]@ == trim(pieces@[k]@),
        decreases pieces.len() - i,
    {
        r.push(trimmed(&pieces[i]));
        i += 1;
    }
    assert(views(r@) =~= trim_all(views(pieces@)));
    r
}

fn split_row(line: &Vec<char>) -> (r: Option<Vec<Vec<char>>>)
    ensures
        r matches Some(cells) ==> split_table_row(line@) == Some(views(cells@)),
        r is None ==> split_table_row(line@) is None,
{
    let t = trimmed(line);
    let bar = scan_run(&t, 0, CharClass::Not('|'));
    if bar >= t.len() {
        return None;
    }
    let lo: usize = if t[0] == '|' {
        1
    } else {
        0
    };
    let u = slice(&t, lo, t.len());
    assert(u@ =~= t@.skip(lo as int));
    assert(t@.skip(0) =~= t@);
    assert(u@ == (if t@[0] == '|' { t@.skip(1) } else { t@ }));
    let v = if u.len() > 0 && u[u.len() - 1] == '|' {
        let w = slice(&u, 0, u.len() - 1);
        assert(w@ =~= u@.drop_last());
        w
    } else {
        u
    };
    let pieces = split_on(&v, '|');
    let cells = trim_each(&pieces);
    assert(trim(line@) == t@);
    assert(v@ == (if u@.len() > 0 && u@.last() == '|' { u@.drop_last() } else { u@ }));
    assert(split_table_row(line@) == Some(trim_all(split(v@, '|'))));
    Some(cells)
}

fn cell_align(cell: &Vec<char>) -> (r: Option<TableAlignment>)
    ensures
        r == cell_alignment(cell@),
{
    let c = trimmed(cell);
    let left = c.len() > 0 && c[0] == ':';
    let right = c.len() > 0 && c[c.len() - 1] == ':';
    let dashes = trimmed_char(&c, ':');
    assert(dashes@.skip(0) =~= dashes@);
    if dashes.len() < 3 || !all_of(&dashes, 0, CharClass::Is('-')) {
        None
    } else if left && right {
        Some(TableAlignment::Center)
    } else if left {
        Some(TableAlignment::Left)
    } else if right {
        Some(TableAlignment::Right)
    } else {
        Some(TableAlignment::Unaligned)
    }
}

fn divider_of(line: &Vec<char>) -> (r: Option<Vec<TableAlignment>>)
    ensures
        r matches Some(a) ==> table_divider(line@) == Some(a@),
        r is None ==> table_divider(line@) is None,
{
    let cells = match split_row(line) {
        None => return None,
        Some(c) => c,
    };
    let ghost cs = views(cells@);
    let mut out: Vec<TableAlignment> = Vec::new();
    let mut i: usize = 0;
    while i < cells.len()
        invariant
            i <= cells.len(),
            cs == views(cells@),
            split_table_row(line@) == Some(cs),
            out@.len() == i,
            forall|k: int|
                0 <= k < i ==> #[trigger] cell_alignment(cs[k]) == Some(out@[k]),
        decreases cells.len() - i,
    {
        match cell_align(&cells[i]) {
            None => {
                assert(cell_alignment(cs[i as int]) is None);
                assert(split_table_row(line@) == Some(cs));
                assert(!(forall|k: int| 0 <= k < cs.len() ==> #[trigger] cell_alignment(cs[k]) is Some));
                return None;
            },
            Some(a) => {
                out.push(a);
            },
        }
        i += 1;
    }
    assert(out@ =~= Seq::new(cs.len(), |k: int| cell_alignment(cs[k])->0));
    Some(out)
}

/// Strings holding the given texts.
fn strings_of(v: &Vec<Vec<char>>) -> (r: Vec<String>)
    ensures
        crate::ast::strings_model(r@) == views(v@),
{
    let mut r: Vec<String> = Vec::new();
    let mut i: usize = 0;
    while i < v.len()
        invariant
            i <= v.len(),
            r@.len() == i,
            forall|k: int| 0 <= k < i ==> #[trigger] r@[k]@ == v@[k]@,
        decreases v.len() - i,
    {
        r.push(to_string(&v[i]));
        i += 1;
    }
    assert(crate::ast::strings_model(r@) =~= views(v@));
    r
}

fn table_at(lines: &Vec<Vec<char>>, i: usize) -> (r: Option<(Block, usize)>)
    requires
        i < lines.len(),
    ensures
        r matches Some((b, n)) ==> table(views(lines@), i as int) == Some((block_model(b), n as int)),
        r is None ==> table(views(lines@), i as int) is None,
{
    let ghost ls = views(lines@);
    if i + 1 >= lines.len() {
        return None;
    }
    let header = match split_row(&lines[i]) {
        None => return None,
        Some(h) => h,
    };
    let alignments = match divider_of(&lines[i + 1]) {
        None => return None,
        Some(a) => a,
    };
    if header.len() != alignments.len() {
        return None;
    }
    let n = header.len();
    let mut rows: Vec<Vec<String>> = Vec::new();
    let mut j = i + 2;
    proof {
        lemma_table_rows(ls, j as int, n as nat);
    }
    while j < lines.len()
        invariant
            i + 2 <= j <= lines.len(),
            ls == views(lines@),
            n == header.len(),
            table_rows(ls, i + 2, n as nat) == (
                crate::ast::rows_model(rows@) + table_rows(ls, j as int, n as nat).0,
                table_rows(ls, j as int, n as nat).1,
            ),
        ensures
            table_rows(ls, j as int, n as nat) == (Seq::<Seq<Seq<char>>>::empty(), j as int),
        decreases lines.len() - j,
    {
        match split_row(&lines[j]) {
            Some(cells) => {
                if cells.len() != n {
                    break;
                }
                let ghost before = crate::ast::rows_model(rows@);
                let ghost rest = table_rows(ls, j + 1, n as nat);
                let strs = strings_of(&cells);
                rows.push(strs);
                assert(crate::ast::rows_model(rows@) =~= before.push(views(cells@)));
                assert(seq![views(cells@)] + rest.0 =~= table_rows(ls, j as int, n as nat).0);
                assert(before + table_rows(ls, j as int, n as nat).0 =~= crate::ast::rows_model(
                    rows@,
                ) + rest.0);
                j += 1;
            },
            None => {
                break;
            },
        }
    }
    assert(crate::ast::rows_model(rows@) + Seq::<Seq<Seq<char>>>::empty() =~= crate::ast::rows_model(rows@));
    let hs = strings_of(&header);
    let b = Block::Table { header: hs, alignments, rows };
    Some((b, j))
}

// ---------------------------------------------------------------------------
// Multi-line recognisers
// ---------------------------------------------------------------------------

fn setext_at(lines: &Vec<Vec<char>>, i: usize) -> (r: Option<Option<(u8, Vec<char>)>>)
    requires
        i < lines.len(),
    ensures
        r matches Some(Some((level, content))) ==> setext_heading(views(lines@), i as int) == Some(
            Some((level, content@)),
        ),
        r matches Some(None) ==> setext_heading(views(lines@), i as int) == Some(
            None::<(u8, Seq<char>)>,
        ),
        r is None ==> setext_heading(views(lines@), i as int) is None,
{
    if i + 1 >= lines.len() {
        return Some(None);
    }
    let content = trimmed(&lines[i]);
    let underline = trimmed(&lines[i + 1]);
    if content.len() == 0 || heading_of(&content).is_some() || fence_of(&content).is_some()
        || is_rule_line(&content) {
        return Some(None);
    }
    match marker_of(&content) {
        None => None,
        Some(Some(_)) => Some(None),
        Some(None) => {
            if quote_of(&content).is_some() || underline.len() == 0 {
                return Some(None);
            }
            let m = underline[0];
            assert(underline@.skip(0) =~= underline@);
            if (m == '=' || m == '-') && all_of(&underline, 0, CharClass::Is(m)) {
                let level: u8 = if m == '=' {
                    1
                } else {
                    2
                };
                Some(Some((level, content)))
            } else {
                Some(None)
            }
        },
    }
}

fn fence_end_at(lines: &Vec<Vec<char>>, j: usize, marker: char, length: usize) -> (e: usize)
    requires
        j <= lines.len(),
    ensures
        e == fence_end(views(lines@), j as int, marker, length as nat),
        j <= e <= lines.len(),
{
    let mut k = j;
    while k < lines.len() && !closes_fence(&lines[k], marker, length)
        invariant
            j <= k <= lines.len(),
            fence_end(views(lines@), j as int, marker, length as nat) == fence_end(
                views(lines@),
                k as int,
                marker,
                length as nat,
            ),
        decreases lines.len() - k,
    {
        k += 1;
    }
    k
}

/// The lines `a..b`, each followed by `\n`.
fn concat_range(lines: &Vec<Vec<char>>, a: usize, b: usize) -> (r: Vec<char>)
    requires
        a <= b <= lines.len(),
    ensures
        r@ == concat_lines(views(lines@).subrange(a as int, b as int)),
{
    let ghost ls = views(lines@);
    let mut r: Vec<char> = Vec::new();
    let mut k = a;
    while k < b
        invariant
            a <= k <= b <= lines.len(),
            ls == views(lines@),
            r@ == concat_lines(ls.subrange(a as int, k as int)),
        decreases b - k,
    {
        crate::text::append(&mut r, &lines[k]);
        r.push('\n');
        k += 1;
        assert(ls.subrange(a as int, k as int).drop_last() =~= ls.subrange(a as int, k - 1));
        assert(r@ =~= concat_lines(ls.subrange(a as int, k as int)));
    }
    r
}

fn interrupts_at(lines: &Vec<Vec<char>>, j: usize, gfm: bool) -> (r: Option<bool>)
    requires
        j < lines.len(),
    ensures
        r == interrupts_paragraph(views(lines@), j as int, gfm),
{
    let line = &lines[j];
    if crate::text::is_blank(line) || fence_of(line).is_some() || heading_of(line).is_some() || (
    gfm && table_at(lines, j).is_some()) {
        return Some(true);
    }
    match setext_at(lines, j) {
        None => None,
        Some(Some(_)) => Some(true),
        Some(None) => {
            if is_rule_line(line) {
                Some(true)
            } else {
                match marker_of(line) {
                    None => None,
                    Some(Some(_)) => Some(true),
                    Some(None) => Some(quote_of(line).is_some()),
                }
            }
        },
    }
}

fn paragraph_end_at(lines: &Vec<Vec<char>>, j: usize, gfm: bool) -> (r: Option<usize>)
    requires
        j <= lines.len(),
    ensures
        r matches Some(e) ==> paragraph_end(views(lines@), j as int, gfm) == Some(e as int),
        r is None ==> paragraph_end(views(lines@), j as int, gfm) is None,
{
    let mut k = j;
    while k < lines.len()
        invariant
            j <= k <= lines.len(),
            paragraph_end(views(lines@), j as int, gfm) == paragraph_end(
                views(lines@),
                k as int,
                gfm,
            ),
        decreases lines.len() - k,
    {
        match interrupts_at(lines, k, gfm) {
            None => return None,
            Some(true) => return Some(k),
            Some(false) => {},
        }
        k += 1;
    }
    Some(k)
}

fn quote_end_at(lines: &Vec<Vec<char>>, j: usize) -> (e: usize)
    requires
        j <= lines.len(),
    ensures
        e == quote_end(views(lines@), j as int),
{
    let mut k = j;
    while k < lines.len() && quote_of(&lines[k]).is_some()
        invariant
            j <= k <= lines.len(),
            quote_end(views(lines@), j as int) == quote_end(views(lines@), k as int),
        decreases lines.len() - k,
    {
        k += 1;
    }
    k
}

// ---------------------------------------------------------------------------
// Lists
// ---------------------------------------------------------------------------

/// Lines collected so far followed by the continuation lines still to come.
spec fn after_lines(acc: Seq<Seq<char>>, r: Option<(Seq<Seq<char>>, int)>) -> Option<
    (Seq<Seq<char>>, int),
> {
    match r {
        None => None,
        Some((more, e)) => Some((acc + more, e)),
    }
}

fn item_continuation_at(lines: &Vec<Vec<char>>, j: usize, indent: u128) -> (r: Option<
    (Vec<Vec<char>>, usize),
>)
    requires
        j <= lines.len(),
    ensures
        r matches Some((more, e)) ==> item_continuation(views(lines@), j as int, indent as nat)
            == Some((views(more@), e as int)),
        r is None ==> item_continuation(views(lines@), j as int, indent as nat) is None,
{
    let ghost ls = views(lines@);
    let mut more: Vec<Vec<char>> = Vec::new();
    let mut k = j;
    assert(views(more@) + Seq::<Seq<char>>::empty() =~= Seq::<Seq<char>>::empty());
    loop
        invariant
            j <= k <= lines.len(),
            ls == views(lines@),
            item_continuation(ls, j as int, indent as nat) == after_lines(
                views(more@),
                item_continuation(ls, k as int, indent as nat),
            ),
        decreases lines.len() - k,
    {
        if k >= lines.len() {
            assert(views(more@) + Seq::<Seq<char>>::empty() =~= views(more@));
            return Some((more, k));
        }
        let cur = &lines[k];
        let ws = scan_run(cur, 0, CharClass::Whitespace);
        let ci = utf8_width(cur, ws);
        let ghost before = views(more@);
        if crate::text::is_blank(cur) {
            more.push(Vec::new());
            assert(views(more@) =~= before.push(Seq::<char>::empty()));
            assert forall|rest: Seq<Seq<char>>| #![auto]
                before + (seq![Seq::<char>::empty()] + rest) == views(more@) + rest by {
                assert(before + (seq![Seq::<char>::empty()] + rest) =~= views(more@) + rest);
            }
            k += 1;
        } else if ci > indent {
            let dedent = if ci >= 2 && indent < ci - 2 {
                indent + 2
            } else {
                ci
            };
            proof {
                crate::text::lemma_char_index_from(cur@, dedent as int, 0);
            }
            match crate::text::byte_to_char_index(cur, dedent) {
                None => {
                    return None;
                },
                Some(m) => {
                    let piece = slice(cur, m, cur.len());
                    assert(piece@ =~= cur@.skip(m as int));
                    more.push(piece);
                    assert(views(more@) =~= before.push(piece@));
                    assert forall|rest: Seq<Seq<char>>| #![auto]
                        before + (seq![piece@] + rest) == views(more@) + rest by {
                        assert(before + (seq![piece@] + rest) =~= views(more@) + rest);
                    }
                    k += 1;
                },
            }
        } else {
            assert(views(more@) + Seq::<Seq<char>>::empty() =~= views(more@));
            return Some((more, k));
        }
    }
}

/// A list item's task state and lines.
struct RawLines {
    checked: Option<bool>,
    lines: Vec<Vec<char>>,
}

spec fn raw_view(r: RawLines) -> RawItem {
    RawItem { checked: r.checked, lines: views(r.lines@) }
}

spec fn raws_view(v: Seq<RawLines>) -> Seq<RawItem> {
    Seq::new(v.len(), |i: int| raw_view(v[i]))
}

spec fn after_items(acc: Seq<RawItem>, r: Option<(Seq<RawItem>, int)>) -> Option<
    (Seq<RawItem>, int),
> {
    match r {
        None => None,
        Some((items, n)) => Some((acc + items, n)),
    }
}

fn list_items_at(lines: &Vec<Vec<char>>, j: usize, ordered: bool, indent: u128, gfm: bool) -> (r:
    Option<(Vec<RawLines>, usize)>)
    requires
        j <= lines.len(),
    ensures
        r matches Some((raw, n)) ==> list_items(views(lines@), j as int, ordered, indent as nat, gfm)
            == Some((raws_view(raw@), n as int)),
        r is None ==> list_items(views(lines@), j as int, ordered, indent as nat, gfm) is None,
{
    let ghost ls = views(lines@);
    let mut acc: Vec<RawLines> = Vec::new();
    let mut k = j;
    assert(raws_view(acc@) + Seq::<RawItem>::empty() =~= Seq::<RawItem>::empty());
    loop
        invariant
            j <= k <= lines.len(),
            ls == views(lines@),
            list_items(ls, j as int, ordered, indent as nat, gfm) == after_items(
                raws_view(acc@),
                list_items(ls, k as int, ordered, indent as nat, gfm),
            ),
        decreases lines.len() - k,
    {
        if k >= lines.len() {
            assert(raws_view(acc@) + Seq::<RawItem>::empty() =~= raws_view(acc@));
            return Some((acc, k));
        }
        match marker_of(&lines[k]) {
            None => {
                return None;
            },
            Some(None) => {
                assert(raws_view(acc@) + Seq::<RawItem>::empty() =~= raws_view(acc@));
                return Some((acc, k));
            },
            Some(Some(m)) => {
                if m.ordered != ordered || m.indent != indent {
                    assert(raws_view(acc@) + Seq::<RawItem>::empty() =~= raws_view(acc@));
                    return Some((acc, k));
                }
                let (checked, content) = task_of(m.content, gfm);
                proof {
                    lemma_item_continuation(ls, k + 1, indent as nat);
                }
                match item_continuation_at(lines, k + 1, indent) {
                    None => {
                        return None;
                    },
                    Some((more, e)) => {
                        let mut item_lines: Vec<Vec<char>> = Vec::new();
                        item_lines.push(content);
                        let mut more = more;
                        let ghost more_v = views(more@);
                        let ghost first = item_lines@[0]@;
                        item_lines.append(&mut more);
                        assert(views(item_lines@) =~= seq![first] + more_v);
                        let ghost before = raws_view(acc@);
                        let item = RawLines { checked, lines: item_lines };
                        acc.push(item);
                        assert(raws_view(acc@) =~= before.push(raw_view(item)));
                        assert forall|rest: Seq<RawItem>| #![auto]
                            before + (seq![raw_view(item)] + rest) == raws_view(acc@) + rest by {
                            assert(before + (seq![raw_view(item)] + rest) =~= raws_view(acc@)
                                + rest);
                        }
                        k = e;
                    },
                }
            },
        }
    }
}

// ---------------------------------------------------------------------------
// Blocks
// ---------------------------------------------------------------------------

/// The blocks parsed so far followed by the blocks still to come.
spec fn after_blocks(done: Seq<BlockModel>, rest: Option<Seq<BlockModel>>) -> Option<
    Seq<BlockModel>,
> {
    match rest {
        None => None,
        Some(bs) => Some(done + bs),
    }
}

/// A block, when there is one, followed by the blocks still to come.
spec fn then_blocks(b: Option<Block>, rest: Option<Seq<BlockModel>>) -> Option<Seq<BlockModel>> {
    match b {
        Some(b) => prepend(block_model(b), rest),
        None => rest,
    }
}

/// Parses lines into blocks; `None` where the grammar fails.
pub fn parse_lines(lines: &Vec<Vec<char>>, gfm: bool) -> (r: Option<Vec<Block>>)
    ensures
        r matches Some(v) ==> blocks(views(lines@), gfm) == Some(blocks_model(v@)),
        r is None ==> blocks(views(lines@), gfm) is None,
    decreases weight(views(lines@)), 2nat,
{
    let ghost ls = views(lines@);
    let mut out: Vec<Block> = Vec::new();
    let mut i: usize = 0;
    assert(Seq::<BlockModel>::empty() + Seq::<BlockModel>::empty() =~= Seq::<BlockModel>::empty());
    proof {
        assert forall|rest: Seq<BlockModel>| #![auto] Seq::<BlockModel>::empty() + rest == rest by {
            assert(Seq::<BlockModel>::empty() + rest =~= rest);
        }
    }
    while i < lines.len()
        invariant
            i <= lines.len(),
            ls == views(lines@),
            blocks(ls, gfm) == after_blocks(blocks_model(out@), blocks_from(ls, i as int, gfm)),
        decreases lines.len() - i,
    {
        proof {
            crate::grammar::lemma_weight_split(ls, i as int);
            assert(ls.skip(0) =~= ls);
        }
        match parse_step(lines, i, gfm) {
            None => {
                return None;
            },
            Some((b, n)) => {
                let ghost before = blocks_model(out@);
                match b {
                    Some(blk) => {
                        let ghost m = block_model(blk);
                        let ghost old_out = out@;
                        out.push(blk);
                        assert(out@.drop_last() =~= old_out);
                        assert forall|rest: Seq<BlockModel>| #![auto]
                            before + (seq![m] + rest) == blocks_model(out@) + rest by {
                            assert(before + (seq![m] + rest) =~= blocks_model(out@) + rest);
                        }
                    },
                    None => {},
                }
                i = n;
            },
        }
    }
    assert(blocks_model(out@) + Seq::<BlockModel>::empty() =~= blocks_model(out@));
    Some(out)
}

/// One step of the block loop at line `i`: the block that starts there, if
/// any, and the index of the next line to parse.
fn parse_step(lines: &Vec<Vec<char>>, i: usize, gfm: bool) -> (r: Option<(Option<Block>, usize)>)
    requires
        i < lines.len(),
    ensures
        r matches Some((b, n)) ==> i < n <= lines.len() && blocks_from(views(lines@), i as int, gfm)
            == then_blocks(b, blocks_from(views(lines@), n as int, gfm)),
        r is None ==> blocks_from(views(lines@), i as int, gfm) is None,
    decreases weight(views(lines@).skip(i as int)), 1nat,
{
    let ghost ls = views(lines@);
    let line = &lines[i];
    if crate::text::is_blank(line) {
        return Some((None, i + 1));
    }
    match heading_of(line) {
        Some((level, content)) => {
            let b = Block::Heading { level, content: to_string(&content) };
            return Some((Some(b), i + 1));
        },
        None => {},
    }
    if gfm {
        match table_at(lines, i) {
            Some((b, n)) => {
                proof {
                    lemma_table_rows(ls, i + 2, split_table_row(ls[i as int])->0.len());
                }
                return Some((Some(b), n));
            },
            None => {},
        }
    }
    let setext = match setext_at(lines, i) {
        None => {
            return None;
        },
        Some(x) => x,
    };
    match setext {
        Some((level, content)) => {
            let b = Block::Heading { level, content: to_string(&content) };
            return Some((Some(b), i + 2));
        },
        None => {},
    }
    match fence_of(line) {
        Some(f) => {
            let e = fence_end_at(lines, i + 1, f.marker, f.length);
            let next = if e < lines.len() {
                e + 1
            } else {
                e
            };
            let content = concat_range(lines, i + 1, e);
            let language = match f.language {
                Some(l) => Some(to_string(&l)),
                None => None,
            };
            let b = Block::CodeFence { language, content: to_string(&content) };
            return Some((Some(b), next));
        },
        None => {},
    }
    if is_rule_line(line) {
        return Some((Some(Block::HorizontalRule), i + 1));
    }
    let marker = match marker_of(line) {
        None => {
            return None;
        },
        Some(x) => x,
    };
    match marker {
        Some(m) => {
            return parse_list(lines, i, m, gfm);
        },
        None => {},
    }
    if quote_of(line).is_some() {
        return parse_quote(lines, i, gfm);
    }
    proof {
        lemma_paragraph_end(ls, i as int, gfm);
        lemma_paragraph_starts(ls, i as int, gfm);
    }
    match paragraph_end_at(lines, i, gfm) {
        None => None,
        Some(e) => {
            let mut parts: Vec<Vec<char>> = Vec::new();
            let mut k = i;
            while k < e
                invariant
                    i <= k <= e <= lines.len(),
                    ls == views(lines@),
                    parts@.len() == k - i,
                    forall|m: int|
                        0 <= m < k - i ==> #[trigger] parts@[m]@ == trim_start(ls[i + m]),
                decreases e - k,
            {
                parts.push(trimmed_start(&lines[k]));
                k += 1;
            }
            assert(views(parts@) =~= trim_starts(ls.subrange(i as int, e as int)));
            let text = join_with_newlines(&parts);
            Some((Some(Block::Paragraph(to_string(&text))), e))
        },
    }
}

/// A block quote at line `i`: its lines' quoted texts parsed again.
fn parse_quote(lines: &Vec<Vec<char>>, i: usize, gfm: bool) -> (r: Option<(Option<Block>, usize)>)
    requires
        i < lines.len(),
        quote_content(views(lines@)[i as int]) is Some,
        trim(views(lines@)[i as int]).len() != 0,
        heading(views(lines@)[i as int]) is None,
        !(gfm && table(views(lines@), i as int) is Some),
        setext_heading(views(lines@), i as int) == Some(None::<(u8, Seq<char>)>),
        fence_opening(views(lines@)[i as int]) is None,
        !is_rule(views(lines@)[i as int]),
        list_marker(views(lines@)[i as int]) == Some(None::<MarkerModel>),
    ensures
        r matches Some((b, n)) ==> i < n <= lines.len() && blocks_from(views(lines@), i as int, gfm)
            == then_blocks(b, blocks_from(views(lines@), n as int, gfm)),
        r is None ==> blocks_from(views(lines@), i as int, gfm) is None,
    decreases weight(views(lines@).skip(i as int)), 0nat,
{
    let ghost ls = views(lines@);
    let e = quote_end_at(lines, i);
    proof {
        lemma_quote_weight(ls, i as int);
        lemma_quote_end(ls, i as int);
        lemma_weight_skip(ls, i as int, e as int);
    }
    let mut parts: Vec<Vec<char>> = Vec::new();
    let mut k = i;
    while k < e
        invariant
            i <= k <= e <= lines.len(),
            ls == views(lines@),
            e == quote_end(ls, i as int),
            forall|m: int| i <= m < e ==> quote_content(#[trigger] ls[m]) is Some,
            parts@.len() == k - i,
            forall|m: int| 0 <= m < k - i ==> #[trigger] parts@[m]@ == quote_content(ls[i + m])->0,
        decreases e - k,
    {
        assert(ls[k as int] == lines@[k as int]@);
        match quote_of(&lines[k]) {
            Some(q) => {
                parts.push(q);
            },
            None => {
                assert(false);
                return None;
            },
        }
        k += 1;
    }
    assert(views(parts@) =~= quote_lines(ls.subrange(i as int, e as int)));
    let text = join_with_newlines(&parts);
    let inner = lines_of(&text);
    proof {
        assert(views(inner@).skip(0) =~= views(inner@));
    }
    match parse_lines(&inner, gfm) {
        None => None,
        Some(bs) => Some((Some(Block::BlockQuote(bs)), e)),
    }
}

/// The list items parsed so far followed by the items still to come.
spec fn after_item_models(
    done: Seq<crate::ast::ItemModel>,
    rest: Option<Seq<crate::ast::ItemModel>>,
) -> Option<Seq<crate::ast::ItemModel>> {
    match rest {
        None => None,
        Some(its) => Some(done + its),
    }
}

/// A list at line `i` whose first marker is `m`: its items, each parsed
/// again from its joined lines.
fn parse_list(lines: &Vec<Vec<char>>, i: usize, m: Marker, gfm: bool) -> (r: Option<
    (Option<Block>, usize),
>)
    requires
        i < lines.len(),
        trim(views(lines@)[i as int]).len() != 0,
        heading(views(lines@)[i as int]) is None,
        !(gfm && table(views(lines@), i as int) is Some),
        setext_heading(views(lines@), i as int) == Some(None::<(u8, Seq<char>)>),
        fence_opening(views(lines@)[i as int]) is None,
        !is_rule(views(lines@)[i as int]),
        list_marker(views(lines@)[i as int]) matches Some(Some(mm)) && marker_matches(m, mm),
    ensures
        r matches Some((b, n)) ==> i < n <= lines.len() && blocks_from(views(lines@), i as int, gfm)
            == then_blocks(b, blocks_from(views(lines@), n as int, gfm)),
        r is None ==> blocks_from(views(lines@), i as int, gfm) is None,
    decreases weight(views(lines@).skip(i as int)), 0nat,
{
    let ghost ls = views(lines@);
    let ghost mm = list_marker(ls[i as int])->0->0;
    let (raw, n) = match list_items_at(lines, i, m.ordered, m.indent, gfm) {
        None => {
            return None;
        },
        Some(x) => x,
    };
    let ghost rv = raws_view(raw@);
    proof {
        lemma_list_items_weight(ls, i as int, mm.ordered, mm.indent, gfm);
        lemma_list_starts(ls, i as int, mm, gfm);
        lemma_weight_skip(ls, i as int, n as int);
        assert(rv.skip(0) =~= rv);
    }
    let ghost whole = blocks_from(ls, i as int, gfm);
    assert(whole == match items_blocks(rv, gfm) {
        None => None,
        Some(its) => prepend(
            BlockModel::List { ordered: m.ordered, start: m.start, items: its },
            blocks_from(ls, n as int, gfm),
        ),
    });
    let mut items: Vec<ListItem> = Vec::new();
    let mut k: usize = 0;
    assert(crate::ast::items_model(items@) =~= Seq::<crate::ast::ItemModel>::empty());
    proof {
        assert forall|rest: Seq<crate::ast::ItemModel>| #![auto]
            Seq::<crate::ast::ItemModel>::empty() + rest == rest by {
            assert(Seq::<crate::ast::ItemModel>::empty() + rest =~= rest);
        }
    }
    while k < raw.len()
        invariant
            k <= raw.len(),
            ls == views(lines@),
            rv == raws_view(raw@),
            whole == blocks_from(ls, i as int, gfm),
            whole == match items_blocks(rv, gfm) {
                None => None,
                Some(its) => prepend(
                    BlockModel::List { ordered: m.ordered, start: m.start, items: its },
                    blocks_from(ls, n as int, gfm),
                ),
            },
            items_weight(rv.skip(k as int)) <= items_weight(rv),
            items_weight(rv) < weight(ls.skip(i as int)) + 1,
            items_blocks(rv, gfm) == after_item_models(
                crate::ast::items_model(items@),
                items_blocks(rv.skip(k as int), gfm),
            ),
        decreases raw.len() - k,
    {
        let ghost rest = rv.skip(k as int);
        assert(rest[0] == raw_view(raw@[k as int]));
        assert(rest.drop_first() =~= rv.skip(k + 1));
        let text = join_with_newlines(&raw[k].lines);
        let sub = lines_of(&text);
        proof {
            assert(views(sub@).skip(0) =~= views(sub@));
        }
        match parse_lines(&sub, gfm) {
            None => {
                assert(items_blocks(rest, gfm) is None);
                return None;
            },
            Some(bs) => {
                let ghost before = crate::ast::items_model(items@);
                let item = ListItem { checked: raw[k].checked, blocks: bs };
                let ghost old_items = items@;
                items.push(item);
                assert(items@.drop_last() =~= old_items);
                assert forall|r: Seq<crate::ast::ItemModel>| #![auto]
                    before + (seq![crate::ast::item_model(item)] + r) == crate::ast::items_model(items@) + r by {
                    assert(before + (seq![crate::ast::item_model(item)] + r) =~= crate::ast::items_model(items@) + r);
                }
            },
        }
        k += 1;
    }
    assert(rv.skip(k as int) =~= Seq::<RawItem>::empty());
    assert(crate::ast::items_model(items@) + Seq::<crate::ast::ItemModel>::empty() =~= crate::ast::items_model(items@));
    Some((Some(Block::List { ordered: m.ordered, start: m.start, items }), n))
}

// ---------------------------------------------------------------------------
// Documents
// ---------------------------------------------------------------------------

/// The characters of each line.
fn line_chars(lines: &Vec<Line>) -> (r: Vec<Vec<char>>)
    ensures
        views(r@) == line_texts(lines@),
{
    let mut r: Vec<Vec<char>> = Vec::new();
    let mut i: usize = 0;
    while i < lines.len()
        invariant
            i <= lines.len(),
            r@.len() == i,
            forall|k: int| 0 <= k < i ==> #[trigger] r@[k]@ == lines@[k].text@,
        decreases lines.len() - i,
    {
        r.push(to_chars(lines[i].text.as_str()));
        i += 1;
    }
    assert(views(r@) =~= line_texts(lines@));
    r
}

/// Parses lines into a document, or `None` where the grammar fails.
pub fn try_parse(lines: &Vec<Line>, options: Options) -> (r: Option<Document>)
    ensures
        r matches Some(doc) ==> blocks(line_texts(lines@), options.gfm) == Some(doc.model()),
        r is None ==> blocks(line_texts(lines@), options.gfm) is None,
{
    let chars = line_chars(lines);
    match parse_lines(&chars, options.gfm) {
        None => None,
        Some(bs) => Some(Document { blocks: bs }),
    }
}

/// Parses lines into a document.
pub fn parse(lines: Vec<Line>, options: Options) -> (doc: Document)
    requires
        blocks(line_texts(lines@), options.gfm) is Some,
    ensures
        blocks(line_texts(lines@), options.gfm) == Some(doc.model()),
{
    match try_parse(&lines, options) {
        Some(doc) => doc,
        None => {
            assert(false);
            Document { blocks: Vec::new() }
        },
    }
}

} // verus!
