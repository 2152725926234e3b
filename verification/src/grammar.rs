//! The block grammar as spec functions over lines of characters.
//!
//! A result of type `Option<..>` whose `None` is described as "fails" marks
//! input on which block parsing cannot proceed: an ordered list marker whose
//! number does not fit in `u64`, or a list continuation line whose
//! dedent falls inside a multi-byte whitespace character.
use vstd::prelude::*;

use crate::ast::{BlockModel, ItemModel, TableAlignment};
use crate::text::{
    all_in, char_index, digits_value, is_ascii_ws, is_ws, join_lines, lemma_run_end, occurs_at,
    run_end, split, split_lines, strip_cr, trim, trim_char, trim_end_char, trim_start, utf8_len,
    CharClass,
};

verus! {

// ---------------------------------------------------------------------------
// Single-line recognisers
// ---------------------------------------------------------------------------

/// An ATX heading: 1 to 6 `#`, an ASCII whitespace, the content without
/// surrounding whitespace and closing `#`s.
pub open spec fn heading(line: Seq<char>) -> Option<(u8, Seq<char>)> {
    let t = trim_start(line);
    let level = run_end(t, 0, CharClass::Is('#'));
    if 1 <= level <= 6 && level < t.len() && is_ascii_ws(t[level]) {
        Some((level as u8, trim(trim_end_char(trim(t.skip(level)), '#'))))
    } else {
        None
    }
}

/// An opening code fence.
pub struct FenceModel {
    pub marker: char,
    pub length: nat,
    pub language: Option<Seq<char>>,
}

/// An opening code fence: three or more backticks or tildes, then an
/// optional language.
pub open spec fn fence_opening(line: Seq<char>) -> Option<FenceModel> {
    let t = trim_start(line);
    if t.len() == 0 || (t[0] != '`' && t[0] != '~') {
        None
    } else {
        let length = run_end(t, 0, CharClass::Is(t[0]));
        let language = trim(t.skip(length));
        if length < 3 {
            None
        } else {
            Some(
                FenceModel {
                    marker: t[0],
                    length: length as nat,
                    language: if language.len() == 0 {
                        None
                    } else {
                        Some(language)
                    },
                },
            )
        }
    }
}

/// A closing fence: at least `length` markers followed by whitespace only.
pub open spec fn is_fence_closing(line: Seq<char>, marker: char, length: nat) -> bool {
    let t = trim_start(line);
    let n = run_end(t, 0, CharClass::Is(marker));
    n >= length && all_in(t.skip(n), CharClass::Whitespace)
}

/// The characters of a text that are not whitespace.
pub open spec fn non_ws(s: Seq<char>) -> Seq<char>
    decreases s.len(),
{
    if s.len() == 0 {
        Seq::empty()
    } else if is_ws(s.last()) {
        non_ws(s.drop_last())
    } else {
        non_ws(s.drop_last()).push(s.last())
    }
}

/// A horizontal rule: at least three `-`, `*` or `_`, all the same,
/// whitespace anywhere.
pub open spec fn is_rule(line: Seq<char>) -> bool {
    let c = non_ws(line);
    c.len() >= 3 && (c[0] == '-' || c[0] == '*' || c[0] == '_') && all_in(c, CharClass::Is(c[0]))
}

/// A list item marker: its kind, its number, the UTF-8 byte width of the
/// indentation before it, and the item text after it.
pub struct MarkerModel {
    pub ordered: bool,
    pub start: u64,
    pub indent: nat,
    pub content: Seq<char>,
}

/// The list marker a line starts with: `- `, `* ` or `+ `, or ASCII digits
/// and `. `. `Some(None)`: no marker; `None`: the number does not fit in `u64`.
pub open spec fn list_marker(line: Seq<char>) -> Option<Option<MarkerModel>> {
    let k = run_end(line, 0, CharClass::Whitespace);
    let indent = utf8_len(line.take(k));
    let content = line.skip(k);
    if occurs_at(content, seq!['-', ' '], 0) || occurs_at(content, seq!['*', ' '], 0)
        || occurs_at(content, seq!['+', ' '], 0) {
        Some(Some(MarkerModel { ordered: false, start: 1, indent, content: content.skip(2) }))
    } else {
        let d = run_end(content, 0, CharClass::AsciiDigit);
        if d == 0 || !occurs_at(content, seq!['.', ' '], d) {
            Some(None)
        } else if digits_value(content.take(d)) > u64::MAX {
            None
        } else {
            Some(
                Some(
                    MarkerModel {
                        ordered: true,
                        start: digits_value(content.take(d)) as u64,
                        indent,
                        content: content.skip(d + 2),
                    },
                ),
            )
        }
    }
}

/// The text of a block quote line after `>` and one optional space.
pub open spec fn quote_content(line: Seq<char>) -> Option<Seq<char>> {
    let t = trim_start(line);
    if t.len() > 0 && t[0] == '>' {
        let r = t.skip(1);
        Some(
            if r.len() > 0 && r[0] == ' ' {
                r.skip(1)
            } else {
                r
            },
        )
    } else {
        None
    }
}

/// A task marker `[ ] `, `[x] ` or `[X] ` at the start of an item, with
/// GitHub-Flavored Markdown.
pub open spec fn task_marker(content: Seq<char>, gfm: bool) -> (Option<bool>, Seq<char>) {
    if !gfm {
        (None, content)
    } else if occurs_at(content, seq!['[', ' ', ']', ' '], 0) {
        (Some(false), content.skip(4))
    } else if occurs_at(content, seq!['[', 'x', ']', ' '], 0) {
        (Some(true), content.skip(4))
    } else if occurs_at(content, seq!['[', 'X', ']', ' '], 0) {
        (Some(true), content.skip(4))
    } else {
        (None, content)
    }
}

// ---------------------------------------------------------------------------
// Tables
// ---------------------------------------------------------------------------

/// Each piece trimmed.
pub open spec fn trim_all(cells: Seq<Seq<char>>) -> Seq<Seq<char>> {
    Seq::new(cells.len(), |i: int| trim(cells[i]))
}

/// The cells of a table row: the trimmed line must hold a `|`; one leading
/// and one trailing `|` are dropped and the rest split at `|`.
pub open spec fn split_table_row(line: Seq<char>) -> Option<Seq<Seq<char>>> {
    let t = trim(line);
    if run_end(t, 0, CharClass::Not('|')) >= t.len() {
        None
    } else {
        let u = if t[0] == '|' {
            t.skip(1)
        } else {
            t
        };
        let v = if u.len() > 0 && u.last() == '|' {
            u.drop_last()
        } else {
            u
        };
        Some(trim_all(split(v, '|')))
    }
}

/// The alignment of a divider cell: three or more dashes between optional colons.
pub open spec fn cell_alignment(cell: Seq<char>) -> Option<TableAlignment> {
    let c = trim(cell);
    let left = c.len() > 0 && c[0] == ':';
    let right = c.len() > 0 && c.last() == ':';
    let dashes = trim_char(c, ':');
    if dashes.len() < 3 || !all_in(dashes, CharClass::Is('-')) {
        None
    } else {
        Some(
            if left && right {
                TableAlignment::Center
            } else if left {
                TableAlignment::Left
            } else if right {
                TableAlignment::Right
            } else {
                TableAlignment::Unaligned
            },
        )
    }
}

/// The alignments of a divider row, when every cell is a divider cell.
pub open spec fn table_divider(line: Seq<char>) -> Option<Seq<TableAlignment>> {
    match split_table_row(line) {
        None => None,
        Some(cells) => if forall|i: int| 0 <= i < cells.len() ==> #[trigger] cell_alignment(cells[i]) is Some {
            Some(Seq::new(cells.len(), |i: int| cell_alignment(cells[i])->0))
        } else {
            None
        },
    }
}

/// The rows from line `j` on that have `n` cells, and the index after them.
pub open spec fn table_rows(ls: Seq<Seq<char>>, j: int, n: nat) -> (Seq<Seq<Seq<char>>>, int)
    decreases ls.len() - j,
{
    if 0 <= j < ls.len() && split_table_row(ls[j]) is Some && split_table_row(ls[j])->0.len()
        == n {
        let rest = table_rows(ls, j + 1, n);
        (seq![split_table_row(ls[j])->0] + rest.0, rest.1)
    } else {
        (Seq::empty(), j)
    }
}

/// A table at line `i`: a header row, a divider with as many cells, and the
/// rows with as many cells that follow; with the index after the table.
pub open spec fn table(ls: Seq<Seq<char>>, i: int) -> Option<(BlockModel, int)> {
    if !(0 <= i && i + 1 < ls.len()) {
        None
    } else {
        match (split_table_row(ls[i]), table_divider(ls[i + 1])) {
            (Some(header), Some(alignments)) => if header.len() != alignments.len() {
                None
            } else {
                let rows = table_rows(ls, i + 2, header.len());
                Some((BlockModel::Table { header, alignments, rows: rows.0 }, rows.1))
            },
            _ => None,
        }
    }
}

// ---------------------------------------------------------------------------
// Multi-line recognisers
// ---------------------------------------------------------------------------

/// A setext heading at line `i`: a text line, then a line of only `=` (level
/// 1) or only `-` (level 2). The text line must not itself be another block
/// start. `None`: fails.
pub open spec fn setext_heading(ls: Seq<Seq<char>>, i: int) -> Option<Option<(u8, Seq<char>)>> {
    if !(0 <= i && i + 1 < ls.len()) {
        Some(None)
    } else {
        let content = trim(ls[i]);
        let underline = trim(ls[i + 1]);
        if content.len() == 0 || heading(content) is Some || fence_opening(content) is Some
            || is_rule(content) {
            Some(None)
        } else {
            match list_marker(content) {
                None => None,
                Some(Some(_)) => Some(None),
                Some(None) => if quote_content(content) is Some || underline.len() == 0 {
                    Some(None)
                } else if (underline[0] == '=' || underline[0] == '-') && all_in(
                    underline,
                    CharClass::Is(underline[0]),
                ) {
                    Some(Some((if underline[0] == '=' { 1u8 } else { 2u8 }, content)))
                } else {
                    Some(None)
                },
            }
        }
    }
}

/// The index of the closing fence line at or after `j`, or the end.
pub open spec fn fence_end(ls: Seq<Seq<char>>, j: int, marker: char, length: nat) -> int
    decreases ls.len() - j,
{
    if 0 <= j < ls.len() && !is_fence_closing(ls[j], marker, length) {
        fence_end(ls, j + 1, marker, length)
    } else {
        j
    }
}

/// Lines each followed by `\n`.
pub open spec fn concat_lines(ls: Seq<Seq<char>>) -> Seq<char>
    decreases ls.len(),
{
    if ls.len() == 0 {
        Seq::empty()
    } else {
        concat_lines(ls.drop_last()) + ls.last() + seq!['\n']
    }
}

/// Whether the line at `j` ends a paragraph: a blank line or the start of
/// another block. `None`: fails.
pub open spec fn interrupts_paragraph(ls: Seq<Seq<char>>, j: int, gfm: bool) -> Option<bool> {
    let line = ls[j];
    if trim(line).len() == 0 || fence_opening(line) is Some || heading(line) is Some || (gfm
        && table(ls, j) is Some) {
        Some(true)
    } else {
        match setext_heading(ls, j) {
            None => None,
            Some(Some(_)) => Some(true),
            Some(None) => if is_rule(line) {
                Some(true)
            } else {
                match list_marker(line) {
                    None => None,
                    Some(Some(_)) => Some(true),
                    Some(None) => Some(quote_content(line) is Some),
                }
            },
        }
    }
}

/// The index of the first line at or after `j` that ends the paragraph.
pub open spec fn paragraph_end(ls: Seq<Seq<char>>, j: int, gfm: bool) -> Option<int>
    decreases ls.len() - j,
{
    if !(0 <= j < ls.len()) {
        Some(j)
    } else {
        match interrupts_paragraph(ls, j, gfm) {
            None => None,
            Some(true) => Some(j),
            Some(false) => paragraph_end(ls, j + 1, gfm),
        }
    }
}

/// Each line without leading whitespace.
pub open spec fn trim_starts(ls: Seq<Seq<char>>) -> Seq<Seq<char>> {
    Seq::new(ls.len(), |i: int| trim_start(ls[i]))
}

/// The index after the block quote lines from `j` on.
pub open spec fn quote_end(ls: Seq<Seq<char>>, j: int) -> int
    decreases ls.len() - j,
{
    if 0 <= j < ls.len() && quote_content(ls[j]) is Some {
        quote_end(ls, j + 1)
    } else {
        j
    }
}

/// The quoted texts of block quote lines.
pub open spec fn quote_lines(ls: Seq<Seq<char>>) -> Seq<Seq<char>> {
    Seq::new(ls.len(), |i: int| quote_content(ls[i])->0)
}

/// The continuation lines of a list item from line `j` on, with the index
/// after them: blank lines (kept empty) and lines indented more than the
/// marker, dedented by up to two bytes past the marker's indentation.
/// `None`: fails.
pub open spec fn item_continuation(ls: Seq<Seq<char>>, j: int, indent: nat) -> Option<
    (Seq<Seq<char>>, int),
>
    decreases ls.len() - j,
{
    if !(0 <= j < ls.len()) {
        Some((Seq::empty(), j))
    } else {
        let cur = ls[j];
        let k = run_end(cur, 0, CharClass::Whitespace);
        let current_indent = utf8_len(cur.take(k));
        if trim(cur).len() == 0 {
            match item_continuation(ls, j + 1, indent) {
                None => None,
                Some((more, e)) => Some((seq![Seq::<char>::empty()] + more, e)),
            }
        } else if current_indent > indent {
            let dedent = if indent + 2 < current_indent {
                indent + 2
            } else {
                current_indent
            };
            match char_index(cur, dedent as int) {
                None => None,
                Some(m) => match item_continuation(ls, j + 1, indent) {
                    None => None,
                    Some((more, e)) => Some((seq![cur.skip(m)] + more, e)),
                },
            }
        } else {
            Some((Seq::empty(), j))
        }
    }
}

/// A list item before its lines are parsed: its task state and its lines.
pub struct RawItem {
    pub checked: Option<bool>,
    pub lines: Seq<Seq<char>>,
}

pub proof fn lemma_item_continuation(ls: Seq<Seq<char>>, j: int, indent: nat)
    requires
        0 <= j <= ls.len(),
    ensures
        item_continuation(ls, j, indent) matches Some((more, e)) ==> j <= e <= ls.len()
            && more.len() == e - j && forall|m: int|
            0 <= m < more.len() ==> (#[trigger] more[m]).len() <= ls[j + m].len(),
    decreases ls.len() - j,
{
    if j < ls.len() {
        lemma_item_continuation(ls, j + 1, indent);
        let cur = ls[j];
        let k = run_end(cur, 0, CharClass::Whitespace);
        let current_indent = utf8_len(cur.take(k));
        let dedent = if indent + 2 < current_indent {
            indent + 2
        } else {
            current_indent
        };
        crate::text::lemma_char_index_from(cur, dedent as int, 0);
        if let Some((more, e)) = item_continuation(ls, j, indent) {
            if e > j {
                let (more1, e1) = item_continuation(ls, j + 1, indent)->0;
                assert forall|m: int| 0 <= m < more.len() implies (#[trigger] more[m]).len()
                    <= ls[j + m].len() by {
                    if m > 0 {
                        assert(more[m] == more1[m - 1]);
                        assert(more1[m - 1].len() <= ls[j + 1 + (m - 1)].len());
                    }
                }
            }
        }
    }
}

/// The items of a list from line `j` on: consecutive items whose marker has
/// the same kind and indentation; with the index after the list. `None`: fails.
pub open spec fn list_items(ls: Seq<Seq<char>>, j: int, ordered: bool, indent: nat, gfm: bool) -> Option<
    (Seq<RawItem>, int),
>
    decreases ls.len() - j,
{
    if !(0 <= j < ls.len()) {
        Some((Seq::empty(), j))
    } else {
        match list_marker(ls[j]) {
            None => None,
            Some(None) => Some((Seq::empty(), j)),
            Some(Some(m)) => if m.ordered != ordered || m.indent != indent {
                Some((Seq::empty(), j))
            } else {
                let task = task_marker(m.content, gfm);
                match item_continuation(ls, j + 1, indent) {
                    None => None,
                    Some((more, e)) => {
                        proof {
                            lemma_item_continuation(ls, j + 1, indent);
                        }
                        match list_items(ls, e, ordered, indent, gfm) {
                            None => None,
                            Some((items, n)) => Some(
                                (
                                    seq![RawItem { checked: task.0, lines: seq![task.1] + more }]
                                        + items,
                                    n,
                                ),
                            ),
                        }
                    },
                }
            },
        }
    }
}

// ---------------------------------------------------------------------------
// Weights for termination
// ---------------------------------------------------------------------------

/// The number of characters of the lines, each counted with its line break.
pub open spec fn weight(ls: Seq<Seq<char>>) -> nat
    decreases ls.len(),
{
    if ls.len() == 0 {
        0
    } else {
        ls[0].len() + 1 + weight(ls.drop_first())
    }
}

/// The weight of the lines of each raw item, each counted one more.
pub open spec fn items_weight(raw: Seq<RawItem>) -> nat
    decreases raw.len(),
{
    if raw.len() == 0 {
        0
    } else {
        weight(split_lines(join_lines(raw[0].lines))) + 1 + items_weight(raw.drop_first())
    }
}

pub proof fn lemma_weight_concat(a: Seq<Seq<char>>, b: Seq<Seq<char>>)
    ensures
        weight(a + b) == weight(a) + weight(b),
    decreases a.len(),
{
    if a.len() > 0 {
        assert((a + b).drop_first() =~= a.drop_first() + b);
        lemma_weight_concat(a.drop_first(), b);
    } else {
        assert(a + b =~= b);
    }
}

pub proof fn lemma_weight_split(ls: Seq<Seq<char>>, n: int)
    requires
        0 <= n <= ls.len(),
    ensures
        weight(ls) == weight(ls.take(n)) + weight(ls.skip(n)),
        weight(ls.take(n)) >= n,
{
    assert(ls =~= ls.take(n) + ls.skip(n));
    lemma_weight_concat(ls.take(n), ls.skip(n));
    lemma_weight_at_least_len(ls.take(n));
}

pub proof fn lemma_weight_at_least_len(ls: Seq<Seq<char>>)
    ensures
        weight(ls) >= ls.len(),
    decreases ls.len(),
{
    if ls.len() > 0 {
        lemma_weight_at_least_len(ls.drop_first());
    }
}

/// Lines no longer than other lines, one for one, weigh no more.
pub proof fn lemma_weight_le(a: Seq<Seq<char>>, b: Seq<Seq<char>>)
    requires
        a.len() == b.len(),
        forall|m: int| 0 <= m < a.len() ==> (#[trigger] a[m]).len() <= b[m].len(),
    ensures
        weight(a) <= weight(b),
    decreases a.len(),
{
    if a.len() > 0 {
        assert forall|m: int| 0 <= m < a.drop_first().len() implies (
        #[trigger] a.drop_first()[m]).len() <= b.drop_first()[m].len() by {
            assert(a.drop_first()[m] == a[m + 1]);
            assert(b.drop_first()[m] == b[m + 1]);
        }
        lemma_weight_le(a.drop_first(), b.drop_first());
    }
}

pub proof fn lemma_split_lines_weight(t: Seq<char>)
    ensures
        weight(split_lines(t)) <= t.len() + 1,
    decreases t.len(),
{
    let k = run_end(t, 0, CharClass::Not('\n'));
    lemma_run_end(t, 0, CharClass::Not('\n'));
    if t.len() > 0 && k < t.len() {
        let first = strip_cr(t.take(k));
        let rest = split_lines(t.skip(k + 1));
        lemma_split_lines_weight(t.skip(k + 1));
        assert((seq![first] + rest).drop_first() =~= rest);
        assert((seq![first] + rest)[0] == first);
        assert(weight(seq![first] + rest) == first.len() + 1 + weight(rest));
    } else if t.len() > 0 {
        assert(seq![t].drop_first() =~= Seq::<Seq<char>>::empty());
        assert(weight(seq![t].drop_first()) == 0);
    }
}

pub proof fn lemma_join_lines_len(ls: Seq<Seq<char>>)
    requires
        ls.len() > 0,
    ensures
        join_lines(ls).len() + 1 == weight(ls),
    decreases ls.len(),
{
    if ls.len() == 1 {
        assert(ls.drop_first() =~= Seq::<Seq<char>>::empty());
        assert(weight(ls.drop_first()) == 0);
    } else {
        lemma_join_lines_len(ls.drop_last());
        assert(ls =~= ls.drop_last() + seq![ls.last()]);
        lemma_weight_concat(ls.drop_last(), seq![ls.last()]);
        assert(seq![ls.last()].drop_first() =~= Seq::<Seq<char>>::empty());
        assert(weight(seq![ls.last()].drop_first()) == 0);
        assert(weight(seq![ls.last()]) == ls.last().len() + 1);
    }
}

/// Re-splitting joined lines weighs no more than the lines.
pub proof fn lemma_rejoin_weight(ls: Seq<Seq<char>>)
    requires
        ls.len() > 0,
    ensures
        weight(split_lines(join_lines(ls))) <= weight(ls),
{
    lemma_join_lines_len(ls);
    lemma_split_lines_weight(join_lines(ls));
}

/// The items of a list weigh less than the lines they come from.
pub proof fn lemma_list_items_weight(
    ls: Seq<Seq<char>>,
    j: int,
    ordered: bool,
    indent: nat,
    gfm: bool,
)
    requires
        0 <= j <= ls.len(),
    ensures
        list_items(ls, j, ordered, indent, gfm) matches Some((raw, n)) ==> j <= n <= ls.len()
            && items_weight(raw) <= weight(ls.subrange(j, n)) && (raw.len() > 0 ==> n > j),
    decreases ls.len() - j,
{
    if j < ls.len() {
        if let Some(Some(m)) = list_marker(ls[j]) {
            if m.ordered == ordered && m.indent == indent {
                lemma_item_continuation(ls, j + 1, indent);
                if let Some((more, e)) = item_continuation(ls, j + 1, indent) {
                    lemma_list_items_weight(ls, e, ordered, indent, gfm);
                    if let Some((items, n)) = list_items(ls, e, ordered, indent, gfm) {
                        lemma_list_item_weight(ls, j, m, gfm, more, e);
                        let task = task_marker(m.content, gfm);
                        let raw = seq![RawItem { checked: task.0, lines: seq![task.1] + more }]
                            + items;
                        assert(raw.drop_first() =~= items);
                        assert(raw[0].lines == seq![task.1] + more);
                        let whole = ls.subrange(j, n);
                        lemma_weight_split(whole, e - j);
                        assert(whole.take(e - j) =~= ls.subrange(j, e));
                        assert(whole.skip(e - j) =~= ls.subrange(e, n));
                    }
                }
            }
        }
    }
}

/// One list item weighs less than the lines it comes from.
proof fn lemma_list_item_weight(
    ls: Seq<Seq<char>>,
    j: int,
    m: MarkerModel,
    gfm: bool,
    more: Seq<Seq<char>>,
    e: int,
)
    requires
        0 <= j < ls.len(),
        list_marker(ls[j]) == Some(Some(m)),
        item_continuation(ls, j + 1, m.indent) == Some((more, e)),
        j + 1 <= e <= ls.len(),
        more.len() == e - j - 1,
        forall|k: int| 0 <= k < more.len() ==> (#[trigger] more[k]).len() <= ls[j + 1 + k].len(),
    ensures
        weight(split_lines(join_lines(seq![task_marker(m.content, gfm).1] + more))) + 1
            <= weight(ls.subrange(j, e)),
{
    let line = ls[j];
    let k = run_end(line, 0, CharClass::Whitespace);
    lemma_run_end(line, 0, CharClass::Whitespace);
    let content = line.skip(k);
    let d = run_end(content, 0, CharClass::AsciiDigit);
    lemma_run_end(content, 0, CharClass::AsciiDigit);
    let first = task_marker(m.content, gfm).1;
    assert(first.len() + 2 <= line.len());
    let item_lines = seq![first] + more;
    let src = ls.subrange(j, e);
    assert(item_lines.drop_first() =~= more);
    assert(src.drop_first() =~= ls.subrange(j + 1, e));
    lemma_weight_le(more, ls.subrange(j + 1, e));
    lemma_rejoin_weight(item_lines);
}

/// The quoted lines weigh less than the quote lines.
pub proof fn lemma_quote_weight(ls: Seq<Seq<char>>, i: int)
    requires
        0 <= i < ls.len(),
        quote_content(ls[i]) is Some,
    ensures
        i < quote_end(ls, i) <= ls.len(),
        weight(split_lines(join_lines(quote_lines(ls.subrange(i, quote_end(ls, i))))))
            < weight(ls.subrange(i, quote_end(ls, i))),
{
    lemma_quote_end(ls, i);
    let e = quote_end(ls, i);
    let src = ls.subrange(i, e);
    let q = quote_lines(src);
    assert forall|m: int| 0 <= m < q.len() implies (#[trigger] q[m]).len() + 1 <= src[m].len() by {
        let t = trim_start(src[m]);
        lemma_run_end(src[m], 0, CharClass::Whitespace);
    }
    lemma_weight_shrink(q, src);
    lemma_rejoin_weight(q);
}

proof fn lemma_weight_shrink(a: Seq<Seq<char>>, b: Seq<Seq<char>>)
    requires
        a.len() == b.len(),
        a.len() > 0,
        forall|m: int| 0 <= m < a.len() ==> (#[trigger] a[m]).len() + 1 <= b[m].len(),
    ensures
        weight(a) < weight(b),
    decreases a.len(),
{
    if a.len() > 1 {
        assert forall|m: int| 0 <= m < a.drop_first().len() implies (
        #[trigger] a.drop_first()[m]).len() + 1 <= b.drop_first()[m].len() by {
            assert(a.drop_first()[m] == a[m + 1]);
            assert(b.drop_first()[m] == b[m + 1]);
        }
        lemma_weight_shrink(a.drop_first(), b.drop_first());
    } else {
        assert(a.drop_first() =~= Seq::<Seq<char>>::empty());
        assert(b.drop_first() =~= Seq::<Seq<char>>::empty());
    }
}

pub proof fn lemma_quote_end(ls: Seq<Seq<char>>, j: int)
    requires
        0 <= j <= ls.len(),
    ensures
        j <= quote_end(ls, j) <= ls.len(),
        forall|m: int| j <= m < quote_end(ls, j) ==> quote_content(#[trigger] ls[m]) is Some,
        quote_end(ls, j) < ls.len() ==> quote_content(ls[quote_end(ls, j)]) is None,
    decreases ls.len() - j,
{
    if j < ls.len() && quote_content(ls[j]) is Some {
        lemma_quote_end(ls, j + 1);
    }
}

pub proof fn lemma_fence_end(ls: Seq<Seq<char>>, j: int, marker: char, length: nat)
    requires
        0 <= j <= ls.len(),
    ensures
        j <= fence_end(ls, j, marker, length) <= ls.len(),
        forall|m: int|
            j <= m < fence_end(ls, j, marker, length) ==> !is_fence_closing(
                #[trigger] ls[m],
                marker,
                length,
            ),
        fence_end(ls, j, marker, length) < ls.len() ==> is_fence_closing(
            ls[fence_end(ls, j, marker, length)],
            marker,
            length,
        ),
    decreases ls.len() - j,
{
    if j < ls.len() && !is_fence_closing(ls[j], marker, length) {
        lemma_fence_end(ls, j + 1, marker, length);
    }
}

pub proof fn lemma_table_rows(ls: Seq<Seq<char>>, j: int, n: nat)
    requires
        0 <= j <= ls.len(),
    ensures
        j <= table_rows(ls, j, n).1 <= ls.len(),
        table_rows(ls, j, n).0.len() == table_rows(ls, j, n).1 - j,
    decreases ls.len() - j,
{
    if j < ls.len() && split_table_row(ls[j]) is Some && split_table_row(ls[j])->0.len() == n {
        lemma_table_rows(ls, j + 1, n);
    }
}

pub proof fn lemma_paragraph_end(ls: Seq<Seq<char>>, j: int, gfm: bool)
    requires
        0 <= j <= ls.len(),
    ensures
        paragraph_end(ls, j, gfm) matches Some(e) ==> j <= e <= ls.len(),
    decreases ls.len() - j,
{
    if j < ls.len() && interrupts_paragraph(ls, j, gfm) == Some(false) {
        lemma_paragraph_end(ls, j + 1, gfm);
    }
}

/// Later suffixes weigh less.
pub proof fn lemma_weight_skip(ls: Seq<Seq<char>>, i: int, n: int)
    requires
        0 <= i < n <= ls.len(),
    ensures
        weight(ls.skip(n)) < weight(ls.skip(i)),
        weight(ls.subrange(i, n)) <= weight(ls.skip(i)),
{
    let s = ls.skip(i);
    lemma_weight_split(s, n - i);
    assert(s.skip(n - i) =~= ls.skip(n));
    assert(s.take(n - i) =~= ls.subrange(i, n));
}

// ---------------------------------------------------------------------------
// Blocks
// ---------------------------------------------------------------------------

/// A block followed by the blocks of a successful parse.
pub open spec fn prepend(b: BlockModel, rest: Option<Seq<BlockModel>>) -> Option<Seq<BlockModel>> {
    match rest {
        None => None,
        Some(bs) => Some(seq![b] + bs),
    }
}

/// The blocks of the lines from line `i` on. At each line, in order: a blank
/// line is skipped; an ATX heading; a table (with GitHub-Flavored Markdown);
/// a setext heading; a fenced code block up to its closing fence or the end;
/// a horizontal rule; a list; a block quote; otherwise a paragraph. List items
/// and quotes are parsed again from their joined lines. `None`: fails.
pub open spec fn blocks_from(ls: Seq<Seq<char>>, i: int, gfm: bool) -> Option<Seq<BlockModel>>
    decreases weight(ls.skip(i)), 1nat,
{
    if !(0 <= i < ls.len()) {
        Some(Seq::empty())
    } else {
        let line = ls[i];
        proof {
            lemma_weight_skip(ls, i, i + 1);
        }
        if trim(line).len() == 0 {
            blocks_from(ls, i + 1, gfm)
        } else if heading(line) is Some {
            let (level, content) = heading(line)->0;
            prepend(BlockModel::Heading { level, content }, blocks_from(ls, i + 1, gfm))
        } else if gfm && table(ls, i) is Some {
            let (t, n) = table(ls, i)->0;
            proof {
                lemma_table_rows(ls, i + 2, split_table_row(ls[i])->0.len());
                lemma_weight_skip(ls, i, n);
            }
            prepend(t, blocks_from(ls, n, gfm))
        } else {
            match setext_heading(ls, i) {
                None => None,
                Some(Some((level, content))) => {
                    proof {
                        lemma_weight_skip(ls, i, i + 2);
                    }
                    prepend(BlockModel::Heading { level, content }, blocks_from(ls, i + 2, gfm))
                },
                Some(None) => if fence_opening(line) is Some {
                    let f = fence_opening(line)->0;
                    let e = fence_end(ls, i + 1, f.marker, f.length);
                    proof {
                        lemma_fence_end(ls, i + 1, f.marker, f.length);
                    }
                    let next = if e < ls.len() {
                        e + 1
                    } else {
                        e
                    };
                    proof {
                        lemma_weight_skip(ls, i, next);
                    }
                    prepend(
                        BlockModel::CodeFence {
                            language: f.language,
                            content: concat_lines(ls.subrange(i + 1, e)),
                        },
                        blocks_from(ls, next, gfm),
                    )
                } else if is_rule(line) {
                    prepend(BlockModel::HorizontalRule, blocks_from(ls, i + 1, gfm))
                } else {
                    match list_marker(line) {
                        None => None,
                        Some(Some(m)) => match list_items(ls, i, m.ordered, m.indent, gfm) {
                            None => None,
                            Some((raw, n)) => {
                                proof {
                                    lemma_list_items_weight(ls, i, m.ordered, m.indent, gfm);
                                    lemma_list_starts(ls, i, m, gfm);
                                    lemma_weight_skip(ls, i, n);
                                }
                                match items_blocks(raw, gfm) {
                                    None => None,
                                    Some(items) => prepend(
                                        BlockModel::List { ordered: m.ordered, start: m.start, items },
                                        blocks_from(ls, n, gfm),
                                    ),
                                }
                            },
                        },
                        Some(None) => if quote_content(line) is Some {
                            let e = quote_end(ls, i);
                            proof {
                                lemma_quote_weight(ls, i);
                                lemma_weight_skip(ls, i, e);
                            }
                            let inner = split_lines(
                                join_lines(quote_lines(ls.subrange(i, e))),
                            );
                            proof {
                                assert(inner.skip(0) =~= inner);
                            }
                            match blocks_from(inner, 0, gfm) {
                                None => None,
                                Some(bs) => prepend(
                                    BlockModel::BlockQuote(bs),
                                    blocks_from(ls, e, gfm),
                                ),
                            }
                        } else {
                            match paragraph_end(ls, i, gfm) {
                                None => None,
                                Some(e) => {
                                    proof {
                                        lemma_paragraph_end(ls, i, gfm);
                                        lemma_paragraph_starts(ls, i, gfm);
                                        lemma_weight_skip(ls, i, e);
                                    }
                                    prepend(
                                        BlockModel::Paragraph(
                                            join_lines(trim_starts(ls.subrange(i, e))),
                                        ),
                                        blocks_from(ls, e, gfm),
                                    )
                                },
                            }
                        },
                    }
                },
            }
        }
    }
}

/// The items of a list, each parsed from its joined lines. `None`: fails.
pub open spec fn items_blocks(raw: Seq<RawItem>, gfm: bool) -> Option<Seq<ItemModel>>
    decreases items_weight(raw), 0nat,
{
    if raw.len() == 0 {
        Some(Seq::empty())
    } else {
        let lines = split_lines(join_lines(raw[0].lines));
        proof {
            assert(lines.skip(0) =~= lines);
        }
        match blocks_from(lines, 0, gfm) {
            None => None,
            Some(bs) => match items_blocks(raw.drop_first(), gfm) {
                None => None,
                Some(rest) => Some(seq![ItemModel { checked: raw[0].checked, blocks: bs }] + rest),
            },
        }
    }
}

/// The blocks of a sequence of lines. `None`: fails.
pub open spec fn blocks(ls: Seq<Seq<char>>, gfm: bool) -> Option<Seq<BlockModel>> {
    blocks_from(ls, 0, gfm)
}

/// A list that starts at a marker line holds at least that line's item.
pub proof fn lemma_list_starts(ls: Seq<Seq<char>>, i: int, m: MarkerModel, gfm: bool)
    requires
        0 <= i < ls.len(),
        list_marker(ls[i]) == Some(Some(m)),
    ensures
        list_items(ls, i, m.ordered, m.indent, gfm) matches Some((raw, n)) ==> raw.len() > 0,
{
}

/// A paragraph starts with a line that ends no paragraph.
pub proof fn lemma_paragraph_starts(ls: Seq<Seq<char>>, i: int, gfm: bool)
    requires
        0 <= i < ls.len(),
        trim(ls[i]).len() != 0,
        heading(ls[i]) is None,
        !(gfm && table(ls, i) is Some),
        setext_heading(ls, i) == Some(None::<(u8, Seq<char>)>),
        fence_opening(ls[i]) is None,
        !is_rule(ls[i]),
        list_marker(ls[i]) == Some(None::<MarkerModel>),
        quote_content(ls[i]) is None,
    ensures
        paragraph_end(ls, i, gfm) matches Some(e) ==> e > i,
{
    assert(interrupts_paragraph(ls, i, gfm) == Some(false));
    lemma_paragraph_end(ls, i + 1, gfm);
}

// ---------------------------------------------------------------------------
// GitHub-Flavored Markdown is opt-in
// ---------------------------------------------------------------------------

/// A block holds no GitHub-Flavored Markdown structure: no table and no task item.
pub open spec fn gfm_free_block(b: BlockModel) -> bool
    decreases b,
{
    match b {
        BlockModel::Table { .. } => false,
        BlockModel::List { items, .. } => forall|k: int|
            0 <= k < items.len() ==> (#[trigger] items[k]).checked is None && gfm_free_seq(
                items[k].blocks,
            ),
        BlockModel::BlockQuote(bs) => gfm_free_seq(bs),
        _ => true,
    }
}

/// No block holds GitHub-Flavored Markdown structure.
pub open spec fn gfm_free_seq(bs: Seq<BlockModel>) -> bool
    decreases bs,
{
    forall|k: int| 0 <= k < bs.len() ==> gfm_free_block(#[trigger] bs[k])
}

proof fn lemma_gfm_free_prepend(b: BlockModel, rest: Option<Seq<BlockModel>>)
    requires
        gfm_free_block(b),
        rest matches Some(bs) ==> gfm_free_seq(bs),
    ensures
        prepend(b, rest) matches Some(bs) ==> gfm_free_seq(bs),
{
    if let Some(bs) = rest {
        let all = seq![b] + bs;
        assert forall|k: int| 0 <= k < all.len() implies gfm_free_block(#[trigger] all[k]) by {
            if k > 0 {
                assert(all[k] == bs[k - 1]);
            }
        }
    }
}

/// Without GitHub-Flavored Markdown no list item has a task state.
proof fn lemma_list_items_no_task(ls: Seq<Seq<char>>, j: int, ordered: bool, indent: nat)
    requires
        0 <= j <= ls.len(),
    ensures
        list_items(ls, j, ordered, indent, false) matches Some((raw, n)) ==> forall|k: int|
            0 <= k < raw.len() ==> (#[trigger] raw[k]).checked is None,
    decreases ls.len() - j,
{
    if j < ls.len() {
        if let Some(Some(m)) = list_marker(ls[j]) {
            if m.ordered == ordered && m.indent == indent {
                lemma_item_continuation(ls, j + 1, indent);
                if let Some((more, e)) = item_continuation(ls, j + 1, indent) {
                    lemma_list_items_no_task(ls, e, ordered, indent);
                    if let Some((items, n)) = list_items(ls, e, ordered, indent, false) {
                        let task = task_marker(m.content, false);
                        let raw = seq![RawItem { checked: task.0, lines: seq![task.1] + more }]
                            + items;
                        assert forall|k: int| 0 <= k < raw.len() implies (
                        #[trigger] raw[k]).checked is None by {
                            if k > 0 {
                                assert(raw[k] == items[k - 1]);
                            }
                        }
                    }
                }
            }
        }
    }
}

/// The blocks parsed without GitHub-Flavored Markdown hold none of its structure.
#[verifier::spinoff_prover]
#[verifier::rlimit(60)]
pub proof fn lemma_blocks_gfm_free(ls: Seq<Seq<char>>, i: int)
    ensures
        blocks_from(ls, i, false) matches Some(bs) ==> gfm_free_seq(bs),
    decreases weight(ls.skip(i)), 1nat,
{
    if 0 <= i < ls.len() {
        let line = ls[i];
        lemma_weight_skip(ls, i, i + 1);
        if trim(line).len() == 0 {
            lemma_blocks_gfm_free(ls, i + 1);
        } else if heading(line) is Some {
            let (level, content) = heading(line)->0;
            lemma_blocks_gfm_free(ls, i + 1);
            lemma_gfm_free_prepend(BlockModel::Heading { level, content }, blocks_from(ls, i + 1, false));
        } else {
            match setext_heading(ls, i) {
                None => {},
                Some(Some((level, content))) => {
                    lemma_weight_skip(ls, i, i + 2);
                    lemma_blocks_gfm_free(ls, i + 2);
                    lemma_gfm_free_prepend(BlockModel::Heading { level, content }, blocks_from(ls, i + 2, false));
                },
                Some(None) => if fence_opening(line) is Some {
                    let f = fence_opening(line)->0;
                    let e = fence_end(ls, i + 1, f.marker, f.length);
                    lemma_fence_end(ls, i + 1, f.marker, f.length);
                    let next = if e < ls.len() {
                        e + 1
                    } else {
                        e
                    };
                    lemma_weight_skip(ls, i, next);
                    lemma_blocks_gfm_free(ls, next);
                    lemma_gfm_free_prepend(
                        BlockModel::CodeFence {
                            language: f.language,
                            content: concat_lines(ls.subrange(i + 1, e)),
                        },
                        blocks_from(ls, next, false),
                    );
                } else if is_rule(line) {
                    lemma_blocks_gfm_free(ls, i + 1);
                    lemma_gfm_free_prepend(BlockModel::HorizontalRule, blocks_from(ls, i + 1, false));
                } else {
                    match list_marker(line) {
                        None => {},
                        Some(Some(m)) => match list_items(ls, i, m.ordered, m.indent, false) {
                            None => {},
                            Some((raw, n)) => {
                                lemma_list_items_weight(ls, i, m.ordered, m.indent, false);
                                lemma_list_starts(ls, i, m, false);
                                lemma_weight_skip(ls, i, n);
                                lemma_list_items_no_task(ls, i, m.ordered, m.indent);
                                lemma_items_gfm_free(raw);
                                lemma_blocks_gfm_free(ls, n);
                                if let Some(items) = items_blocks(raw, false) {
                                    lemma_gfm_free_prepend(
                                        BlockModel::List { ordered: m.ordered, start: m.start, items },
                                        blocks_from(ls, n, false),
                                    );
                                }
                            },
                        },
                        Some(None) => if quote_content(line) is Some {
                            let e = quote_end(ls, i);
                            lemma_quote_weight(ls, i);
                            lemma_weight_skip(ls, i, e);
                            let inner = split_lines(join_lines(quote_lines(ls.subrange(i, e))));
                            assert(inner.skip(0) =~= inner);
                            lemma_blocks_gfm_free(inner, 0);
                            lemma_blocks_gfm_free(ls, e);
                            if let Some(bs) = blocks_from(inner, 0, false) {
                                lemma_gfm_free_prepend(BlockModel::BlockQuote(bs), blocks_from(ls, e, false));
                            }
                        } else {
                            match paragraph_end(ls, i, false) {
                                None => {},
                                Some(e) => {
                                    lemma_paragraph_end(ls, i, false);
                                    lemma_paragraph_starts(ls, i, false);
                                    lemma_weight_skip(ls, i, e);
                                    lemma_blocks_gfm_free(ls, e);
                                    lemma_gfm_free_prepend(
                                        BlockModel::Paragraph(join_lines(trim_starts(ls.subrange(i, e)))),
                                        blocks_from(ls, e, false),
                                    );
                                },
                            }
                        },
                    }
                },
            }
        }
    }
}

/// The items parsed without GitHub-Flavored Markdown hold none of its structure.
proof fn lemma_items_gfm_free(raw: Seq<RawItem>)
    requires
        forall|k: int| 0 <= k < raw.len() ==> (#[trigger] raw[k]).checked is None,
    ensures
        items_blocks(raw, false) matches Some(its) ==> forall|k: int|
            0 <= k < its.len() ==> (#[trigger] its[k]).checked is None && gfm_free_seq(
                its[k].blocks,
            ),
    decreases items_weight(raw), 0nat,
{
    if raw.len() > 0 {
        let lines = split_lines(join_lines(raw[0].lines));
        assert(lines.skip(0) =~= lines);
        lemma_blocks_gfm_free(lines, 0);
        assert forall|k: int| 0 <= k < raw.drop_first().len() implies (
        #[trigger] raw.drop_first()[k]).checked is None by {
            assert(raw.drop_first()[k] == raw[k + 1]);
        }
        lemma_items_gfm_free(raw.drop_first());
        if let Some(bs) = blocks_from(lines, 0, false) {
            if let Some(rest) = items_blocks(raw.drop_first(), false) {
                let its = seq![ItemModel { checked: raw[0].checked, blocks: bs }] + rest;
                assert forall|k: int| 0 <= k < its.len() implies (#[trigger] its[k]).checked is None
                    && gfm_free_seq(its[k].blocks) by {
                    if k > 0 {
                        assert(its[k] == rest[k - 1]);
                    }
                }
            }
        }
    }
}

// ---------------------------------------------------------------------------
// Heading levels
// ---------------------------------------------------------------------------

/// Every heading in a block, at any depth, has a level from 1 to 6.
pub open spec fn levels_in_range_block(b: BlockModel) -> bool
    decreases b,
{
    match b {
        BlockModel::Heading { level, .. } => 1 <= level <= 6,
        BlockModel::List { items, .. } => forall|k: int|
            0 <= k < items.len() ==> levels_in_range_seq(#[trigger] items[k].blocks),
        BlockModel::BlockQuote(bs) => levels_in_range_seq(bs),
        _ => true,
    }
}

/// Every heading in the blocks, at any depth, has a level from 1 to 6.
pub open spec fn levels_in_range_seq(bs: Seq<BlockModel>) -> bool
    decreases bs,
{
    forall|k: int| 0 <= k < bs.len() ==> levels_in_range_block(#[trigger] bs[k])
}

proof fn lemma_levels_prepend(b: BlockModel, rest: Option<Seq<BlockModel>>)
    requires
        levels_in_range_block(b),
        rest matches Some(bs) ==> levels_in_range_seq(bs),
    ensures
        prepend(b, rest) matches Some(bs) ==> levels_in_range_seq(bs),
{
    if let Some(bs) = rest {
        let all = seq![b] + bs;
        assert forall|k: int| 0 <= k < all.len() implies levels_in_range_block(#[trigger] all[k]) by {
            if k > 0 {
                assert(all[k] == bs[k - 1]);
            }
        }
    }
}

/// Every heading parsed, at any depth, has a level from 1 to 6.
#[verifier::spinoff_prover]
#[verifier::rlimit(60)]
pub proof fn lemma_blocks_heading_levels(ls: Seq<Seq<char>>, i: int, gfm: bool)
    ensures
        blocks_from(ls, i, gfm) matches Some(bs) ==> levels_in_range_seq(bs),
    decreases weight(ls.skip(i)), 1nat,
{
    if 0 <= i < ls.len() {
        let line = ls[i];
        lemma_weight_skip(ls, i, i + 1);
        if trim(line).len() == 0 {
            lemma_blocks_heading_levels(ls, i + 1, gfm);
        } else if heading(line) is Some {
            let (level, content) = heading(line)->0;
            lemma_blocks_heading_levels(ls, i + 1, gfm);
            lemma_levels_prepend(BlockModel::Heading { level, content }, blocks_from(ls, i + 1, gfm));
        } else if gfm && table(ls, i) is Some {
            let (t, n) = table(ls, i)->0;
            lemma_table_rows(ls, i + 2, split_table_row(ls[i])->0.len());
            lemma_weight_skip(ls, i, n);
            lemma_blocks_heading_levels(ls, n, gfm);
            lemma_levels_prepend(t, blocks_from(ls, n, gfm));
        } else {
            match setext_heading(ls, i) {
                None => {},
                Some(Some((level, content))) => {
                    lemma_weight_skip(ls, i, i + 2);
                    lemma_blocks_heading_levels(ls, i + 2, gfm);
                    lemma_levels_prepend(BlockModel::Heading { level, content }, blocks_from(ls, i + 2, gfm));
                },
                Some(None) => if fence_opening(line) is Some {
                    let f = fence_opening(line)->0;
                    let e = fence_end(ls, i + 1, f.marker, f.length);
                    lemma_fence_end(ls, i + 1, f.marker, f.length);
                    let next = if e < ls.len() {
                        e + 1
                    } else {
                        e
                    };
                    lemma_weight_skip(ls, i, next);
                    lemma_blocks_heading_levels(ls, next, gfm);
                    lemma_levels_prepend(
                        BlockModel::CodeFence {
                            language: f.language,
                            content: concat_lines(ls.subrange(i + 1, e)),
                        },
                        blocks_from(ls, next, gfm),
                    );
                } else if is_rule(line) {
                    lemma_blocks_heading_levels(ls, i + 1, gfm);
                    lemma_levels_prepend(BlockModel::HorizontalRule, blocks_from(ls, i + 1, gfm));
                } else {
                    match list_marker(line) {
                        None => {},
                        Some(Some(m)) => match list_items(ls, i, m.ordered, m.indent, gfm) {
                            None => {},
                            Some((raw, n)) => {
                                lemma_list_items_weight(ls, i, m.ordered, m.indent, gfm);
                                lemma_list_starts(ls, i, m, gfm);
                                lemma_weight_skip(ls, i, n);
                                lemma_items_heading_levels(raw, gfm);
                                lemma_blocks_heading_levels(ls, n, gfm);
                                if let Some(items) = items_blocks(raw, gfm) {
                                    lemma_levels_prepend(
                                        BlockModel::List { ordered: m.ordered, start: m.start, items },
                                        blocks_from(ls, n, gfm),
                                    );
                                }
                            },
                        },
                        Some(None) => if quote_content(line) is Some {
                            let e = quote_end(ls, i);
                            lemma_quote_weight(ls, i);
                            lemma_weight_skip(ls, i, e);
                            let inner = split_lines(join_lines(quote_lines(ls.subrange(i, e))));
                            assert(inner.skip(0) =~= inner);
                            lemma_blocks_heading_levels(inner, 0, gfm);
                            lemma_blocks_heading_levels(ls, e, gfm);
                            if let Some(bs) = blocks_from(inner, 0, gfm) {
                                lemma_levels_prepend(BlockModel::BlockQuote(bs), blocks_from(ls, e, gfm));
                            }
                        } else {
                            match paragraph_end(ls, i, gfm) {
                                None => {},
                                Some(e) => {
                                    lemma_paragraph_end(ls, i, gfm);
                                    lemma_paragraph_starts(ls, i, gfm);
                                    lemma_weight_skip(ls, i, e);
                                    lemma_blocks_heading_levels(ls, e, gfm);
                                    lemma_levels_prepend(
                                        BlockModel::Paragraph(join_lines(trim_starts(ls.subrange(i, e)))),
                                        blocks_from(ls, e, gfm),
                                    );
                                },
                            }
                        },
                    }
                },
            }
        }
    }
}

/// Every heading in parsed list items has a level from 1 to 6.
proof fn lemma_items_heading_levels(raw: Seq<RawItem>, gfm: bool)
    ensures
        items_blocks(raw, gfm) matches Some(its) ==> forall|k: int|
            0 <= k < its.len() ==> levels_in_range_seq(#[trigger] its[k].blocks),
    decreases items_weight(raw), 0nat,
{
    if raw.len() > 0 {
        let lines = split_lines(join_lines(raw[0].lines));
        assert(lines.skip(0) =~= lines);
        lemma_blocks_heading_levels(lines, 0, gfm);
        lemma_items_heading_levels(raw.drop_first(), gfm);
        if let Some(bs) = blocks_from(lines, 0, gfm) {
            if let Some(rest) = items_blocks(raw.drop_first(), gfm) {
                let its = seq![ItemModel { checked: raw[0].checked, blocks: bs }] + rest;
                assert forall|k: int| 0 <= k < its.len() implies levels_in_range_seq(
                    #[trigger] its[k].blocks,
                ) by {
                    if k > 0 {
                        assert(its[k] == rest[k - 1]);
                    }
                }
            }
        }
    }
}

// ---------------------------------------------------------------------------
// Lines that start with a visible character
// ---------------------------------------------------------------------------

/// An ASCII letter.
pub open spec fn is_ascii_letter(c: char) -> bool {
    ('a' <= c <= 'z') || ('A' <= c <= 'Z')
}

/// A line starting with a character other than whitespace is its own
/// `trim_start`, and its trim keeps its start.
pub proof fn lemma_trim_first(s: Seq<char>)
    requires
        s.len() > 0,
        !is_ws(s[0]),
    ensures
        trim_start(s) == s,
        0 < trim(s).len() <= s.len(),
        forall|i: int| 0 <= i < trim(s).len() ==> #[trigger] trim(s)[i] == s[i],
        forall|i: int| 0 <= i < s.len() && !is_ws(#[trigger] s[i]) ==> i < trim(s).len(),
{
    crate::text::lemma_run_end_over(s, 0, 0, CharClass::Whitespace);
    assert(s.skip(0) =~= s);
    crate::text::lemma_run_start(s, s.len() as int, CharClass::Whitespace);
}

/// The visible characters of a line starting with a visible character start with it.
pub proof fn lemma_non_ws_first(s: Seq<char>)
    requires
        s.len() > 0,
        !is_ws(s[0]),
    ensures
        non_ws(s).len() > 0,
        non_ws(s)[0] == s[0],
    decreases s.len(),
{
    if s.len() > 1 {
        assert(s.drop_last()[0] == s[0]);
        lemma_non_ws_first(s.drop_last());
        let r = non_ws(s.drop_last());
        if !is_ws(s.last()) {
            assert(r.push(s.last())[0] == r[0]);
        }
    } else {
        assert(s.drop_last() =~= Seq::<char>::empty());
        assert(non_ws(s.drop_last()).len() == 0);
        assert(s.last() == s[0]);
        assert(non_ws(s) == non_ws(s.drop_last()).push(s.last()));
    }
}

/// A line that starts with an ASCII letter and holds no `|` is an ordinary
/// paragraph line: no heading, fence, rule, list item, quote or table row.
pub proof fn lemma_letter_line(p: Seq<char>)
    requires
        p.len() > 0,
        is_ascii_letter(p[0]),
        !p.contains('|'),
    ensures
        trim(p).len() != 0,
        heading(p) is None,
        fence_opening(p) is None,
        !is_rule(p),
        list_marker(p) == Some(None::<MarkerModel>),
        quote_content(p) is None,
        split_table_row(p) is None,
        heading(trim(p)) is None,
        fence_opening(trim(p)) is None,
        !is_rule(trim(p)),
        list_marker(trim(p)) == Some(None::<MarkerModel>),
        quote_content(trim(p)) is None,
{
    lemma_trim_first(p);
    let t = trim(p);
    assert(t[0] == p[0]);
    lemma_trim_first(t);
    lemma_non_ws_first(p);
    lemma_non_ws_first(t);
    crate::text::lemma_run_end_over(p, 0, 0, CharClass::Is('#'));
    crate::text::lemma_run_end_over(t, 0, 0, CharClass::Is('#'));
    crate::text::lemma_run_end_over(p, 0, 0, CharClass::AsciiDigit);
    crate::text::lemma_run_end_over(t, 0, 0, CharClass::AsciiDigit);
    assert(p.skip(0) =~= p);
    assert(t.skip(0) =~= t);
    assert(!occurs_at(p, seq!['-', ' '], 0) && !occurs_at(p, seq!['*', ' '], 0) && !occurs_at(
        p,
        seq!['+', ' '],
        0,
    )) by {
        if p.len() >= 2 {
            assert(p.subrange(0, 2)[0] == p[0]);
        }
    }
    assert(!occurs_at(t, seq!['-', ' '], 0) && !occurs_at(t, seq!['*', ' '], 0) && !occurs_at(
        t,
        seq!['+', ' '],
        0,
    )) by {
        if t.len() >= 2 {
            assert(t.subrange(0, 2)[0] == t[0]);
        }
    }
    crate::text::lemma_run_end(t, 0, CharClass::Not('|'));
    if run_end(t, 0, CharClass::Not('|')) < t.len() {
        let k = run_end(t, 0, CharClass::Not('|'));
        assert(t[k] == p[k]);
        assert(p.contains('|'));
    }
}

/// With GitHub-Flavored Markdown, a table ends the paragraph above it.
pub proof fn lemma_paragraph_then_table(p: Seq<char>, h: Seq<char>, d: Seq<char>)
    requires
        p.len() > 0,
        is_ascii_letter(p[0]),
        !p.contains('|'),
        h.len() > 0,
        h[0] == '|',
        table(seq![h, d], 0) is Some,
    ensures
        blocks(seq![p, h, d], true) == Some(
            seq![BlockModel::Paragraph(p), (table(seq![h, d], 0)->0).0],
        ),
{
    let ls = seq![p, h, d];
    lemma_letter_line(p);
    lemma_trim_first(h);
    assert(trim(h)[0] == '|');
    crate::text::lemma_run_end_over(h, 0, 0, CharClass::Is('#'));
    assert(heading(h) is None);
    assert(ls[0] == p && ls[1] == h && ls[2] == d);
    assert(table(ls, 0) is None);
    assert(setext_heading(ls, 0) == Some(None::<(u8, Seq<char>)>));
    assert(interrupts_paragraph(ls, 0, true) == Some(false));
    assert(table_rows(ls, 3, split_table_row(h)->0.len()) == (Seq::<Seq<Seq<char>>>::empty(), 3int));
    assert(table_rows(seq![h, d], 2, split_table_row(h)->0.len()) == (
        Seq::<Seq<Seq<char>>>::empty(),
        2int,
    ));
    let t = (table(seq![h, d], 0)->0).0;
    assert(table(ls, 1) == Some((t, 3int)));
    assert(interrupts_paragraph(ls, 1, true) == Some(true));
    assert(paragraph_end(ls, 1, true) == Some(1int));
    assert(paragraph_end(ls, 0, true) == Some(1int));
    assert(ls.subrange(0, 1) =~= seq![p]);
    lemma_trim_first(p);
    assert(trim_starts(seq![p]) =~= seq![p]);
    assert(join_lines(seq![p]) == p);
    lemma_weight_skip(ls, 0, 1);
    lemma_weight_skip(ls, 1, 3);
    assert(blocks_from(ls, 3, true) == Some(Seq::<BlockModel>::empty()));
    assert(blocks_from(ls, 1, true) == prepend(t, blocks_from(ls, 3, true)));
    assert(blocks_from(ls, 1, true) =~= Some(seq![t]));
    assert(blocks_from(ls, 0, true) == prepend(BlockModel::Paragraph(p), blocks_from(ls, 1, true)));
    assert(seq![BlockModel::Paragraph(p)] + seq![t] =~= seq![BlockModel::Paragraph(p), t]);
}

// ---------------------------------------------------------------------------
// Fenced code is kept verbatim
// ---------------------------------------------------------------------------

/// A line without a backtick closes no backtick fence.
proof fn lemma_no_backtick_not_closing(l: Seq<char>)
    requires
        !l.contains('`'),
    ensures
        !is_fence_closing(l, '`', 3),
{
    let k = run_end(l, 0, CharClass::Whitespace);
    lemma_run_end(l, 0, CharClass::Whitespace);
    let t = l.skip(k);
    lemma_run_end(t, 0, CharClass::Is('`'));
    if run_end(t, 0, CharClass::Is('`')) > 0 {
        assert(t[0] == l[k]);
    }
}

/// The closing fence line ends the fence at the first closing line.
proof fn lemma_fence_end_at(ls: Seq<Seq<char>>, j: int, e: int)
    requires
        0 <= j <= e < ls.len(),
        forall|m: int| j <= m < e ==> !is_fence_closing(#[trigger] ls[m], '`', 3),
        is_fence_closing(ls[e], '`', 3),
    ensures
        fence_end(ls, j, '`', 3) == e,
    decreases e - j,
{
    if j < e {
        lemma_fence_end_at(ls, j + 1, e);
    }
}

/// Lines joined, each followed by `\n`, with one more line in front.
proof fn lemma_concat_lines_cons(a: Seq<char>, ls: Seq<Seq<char>>)
    ensures
        concat_lines(seq![a] + ls) == a + seq!['\n'] + concat_lines(ls),
    decreases ls.len(),
{
    if ls.len() == 0 {
        assert(seq![a] + ls =~= seq![a]);
        assert(seq![a].drop_last() =~= Seq::<Seq<char>>::empty());
        assert(concat_lines(seq![a].drop_last()) == Seq::<char>::empty());
        assert(concat_lines(ls) == Seq::<char>::empty());
        assert(seq![a].last() == a);
        assert(concat_lines(seq![a]) =~= a + seq!['\n'] + concat_lines(ls));
    } else {
        lemma_concat_lines_cons(a, ls.drop_last());
        assert((seq![a] + ls).drop_last() =~= seq![a] + ls.drop_last());
        assert((seq![a] + ls).last() == ls.last());
        assert(concat_lines(seq![a] + ls) =~= a + seq!['\n'] + concat_lines(ls));
    }
}

/// The lines of a text that is empty or ends with `\n`, followed by a
/// closing fence: the text is those lines, each followed by `\n`.
pub proof fn lemma_body_lines(body: Seq<char>) -> (lines: Seq<Seq<char>>)
    requires
        body.len() == 0 || body.last() == '\n',
        !body.contains('`'),
        !body.contains('\r'),
    ensures
        split_lines(body + seq!['`', '`', '`']) == lines + seq![seq!['`', '`', '`']],
        concat_lines(lines) == body,
        forall|m: int| 0 <= m < lines.len() ==> !(#[trigger] lines[m]).contains('`'),
    decreases body.len(),
{
    let close = seq!['`', '`', '`'];
    if body.len() == 0 {
        assert(body + close =~= close);
        crate::text::lemma_split_lines_single(close);
        assert(Seq::<Seq<char>>::empty() + seq![close] =~= seq![close]);
        Seq::empty()
    } else {
        let k = run_end(body, 0, CharClass::Not('\n'));
        lemma_run_end(body, 0, CharClass::Not('\n'));
        if k >= body.len() {
            assert(body[body.len() - 1] == '\n');
        }
        let a = body.take(k);
        let rest = body.skip(k + 1);
        assert(body =~= a + seq!['\n'] + rest);
        assert(!a.contains('\n')) by {
            assert forall|j: int| 0 <= j < a.len() implies a[j] != '\n' by {
                assert(a[j] == body[j]);
            }
        }
        assert(!rest.contains('`') && !rest.contains('\r')) by {
            assert forall|j: int| 0 <= j < rest.len() implies rest[j] != '`' && rest[j] != '\r' by {
                assert(rest[j] == body[k + 1 + j]);
            }
        }
        if rest.len() > 0 {
            assert(rest.last() == body.last());
        }
        let more = lemma_body_lines(rest);
        assert(body + close =~= a + seq!['\n'] + (rest + close));
        crate::text::lemma_split_lines_cons(a, rest + close);
        assert(strip_cr(a) == a) by {
            if a.len() > 0 && a.last() == '\r' {
                assert(body[a.len() - 1] == '\r');
            }
        }
        lemma_concat_lines_cons(a, more);
        let lines = seq![a] + more;
        assert(seq![a] + (more + seq![close]) =~= lines + seq![close]);
        assert forall|m: int| 0 <= m < lines.len() implies !(#[trigger] lines[m]).contains('`') by {
            if m == 0 {
                assert forall|j: int| 0 <= j < a.len() implies a[j] != '`' by {
                    assert(a[j] == body[j]);
                }
            } else {
                assert(lines[m] == more[m - 1]);
            }
        }
        lines
    }
}

/// A line of three backticks and a language without backticks or `|` opens
/// a backtick fence of length 3, and is neither a heading nor a table row
/// nor the text of a setext heading.
proof fn lemma_fence_line(lang: Seq<char>)
    requires
        !lang.contains('`'),
        !lang.contains('|'),
    ensures
        ({
            let f = seq!['`', '`', '`'] + lang;
            &&& fence_opening(f) == Some(
                FenceModel {
                    marker: '`',
                    length: 3,
                    language: if trim(lang).len() == 0 {
                        None
                    } else {
                        Some(trim(lang))
                    },
                },
            )
            &&& trim(f).len() != 0
            &&& heading(f) is None
            &&& split_table_row(f) is None
            &&& fence_opening(trim(f)) is Some
        }),
{
    let f = seq!['`', '`', '`'] + lang;
    assert(f[0] == '`' && f[1] == '`' && f[2] == '`');
    lemma_trim_first(f);
    lemma_run_end(f, 0, CharClass::Is('`'));
    if lang.len() > 0 {
        assert(f[3] == lang[0]);
        crate::text::lemma_run_end_over(f, 0, 3, CharClass::Is('`'));
    }
    assert(run_end(f, 0, CharClass::Is('`')) == 3);
    assert(f.skip(3) =~= lang);
    crate::text::lemma_run_end_over(f, 0, 0, CharClass::Is('#'));
    let t = trim(f);
    lemma_run_end(t, 0, CharClass::Not('|'));
    if run_end(t, 0, CharClass::Not('|')) < t.len() {
        let k = run_end(t, 0, CharClass::Not('|'));
        assert(t[k] == f[k]);
        assert(f[k] == lang[k - 3]);
    }
    assert(t.len() >= 3);
    assert(t[0] == '`' && t[1] == '`' && t[2] == '`');
    lemma_trim_first(t);
    lemma_run_end(t, 0, CharClass::Is('`'));
}

/// The closing line of three backticks closes the fence.
proof fn lemma_close_line()
    ensures
        is_fence_closing(seq!['`', '`', '`'], '`', 3),
{
    let close = seq!['`', '`', '`'];
    lemma_trim_first(close);
    lemma_run_end(close, 0, CharClass::Is('`'));
    assert(close.skip(3) =~= Seq::<char>::empty());
}

/// A backtick fence line, lines without a backtick, and a closing fence line
/// parse as one fenced code block holding those lines verbatim.
pub proof fn lemma_fence_block(lang: Seq<char>, body: Seq<Seq<char>>, gfm: bool)
    requires
        !lang.contains('`'),
        !lang.contains('|'),
        forall|m: int| 0 <= m < body.len() ==> !(#[trigger] body[m]).contains('`'),
    ensures
        blocks(seq![seq!['`', '`', '`'] + lang] + body + seq![seq!['`', '`', '`']], gfm) == Some(
            seq![
                BlockModel::CodeFence {
                    language: if trim(lang).len() == 0 {
                        None
                    } else {
                        Some(trim(lang))
                    },
                    content: concat_lines(body),
                },
            ],
        ),
{
    let close = seq!['`', '`', '`'];
    let f = close + lang;
    let ls = seq![f] + body + seq![close];
    let e: int = body.len() as int + 1;
    assert(ls[0] == f);
    assert(ls[e] == close);
    assert forall|m: int| 1 <= m < e implies #[trigger] ls[m] == body[m - 1] by {}
    lemma_fence_line(lang);
    assert(table(ls, 0) is None);
    assert(setext_heading(ls, 0) == Some(None::<(u8, Seq<char>)>));
    assert forall|m: int| 1 <= m < e implies !is_fence_closing(#[trigger] ls[m], '`', 3) by {
        lemma_no_backtick_not_closing(body[m - 1]);
    }
    lemma_close_line();
    lemma_fence_end_at(ls, 1, e);
    assert(ls.subrange(1, e) =~= body);
    lemma_weight_skip(ls, 0, e + 1);
    assert(blocks_from(ls, e + 1, gfm) == Some(Seq::<BlockModel>::empty()));
}

// ---------------------------------------------------------------------------
// A blank line between list items stays in the list
// ---------------------------------------------------------------------------

/// A line `- x` opens an unordered item with text `x`, and is neither a
/// heading, a fence, a quote, nor a line that a setext heading could take.
proof fn lemma_dash_line(x: Seq<char>)
    ensures
        ({
            let l = seq!['-', ' '] + x;
            &&& trim(l).len() != 0
            &&& heading(l) is None
            &&& fence_opening(l) is None
            &&& quote_content(l) is None
            &&& list_marker(l) == Some(
                Some(MarkerModel { ordered: false, start: 1, indent: 0, content: x }),
            )
            &&& list_marker(trim(l)) is Some
            &&& run_end(l, 0, CharClass::Whitespace) == 0
        }),
{
    let l = seq!['-', ' '] + x;
    assert(l[0] == '-' && l[1] == ' ');
    lemma_trim_first(l);
    let t = trim(l);
    assert(t[0] == '-');
    lemma_trim_first(t);
    crate::text::lemma_run_end_over(l, 0, 0, CharClass::Whitespace);
    crate::text::lemma_run_end_over(l, 0, 0, CharClass::Is('#'));
    crate::text::lemma_run_end_over(t, 0, 0, CharClass::Whitespace);
    crate::text::lemma_run_end_over(t, 0, 0, CharClass::AsciiDigit);
    assert(l.skip(0) =~= l);
    assert(t.skip(0) =~= t);
    assert(l.take(0) =~= Seq::<char>::empty());
    assert(utf8_len(Seq::<char>::empty()) == 0);
    assert(occurs_at(l, seq!['-', ' '], 0)) by {
        assert(l.subrange(0, 2) =~= seq!['-', ' ']);
    }
    assert(l.skip(2) =~= x);
}

/// The raw items of the lines `- x`, a blank line and `- y`: the blank line
/// stays with the first item, and the list goes on to the end.
proof fn lemma_loose_list_raw(x: Seq<char>, y: Seq<char>)
    ensures
        list_items(
            seq![seq!['-', ' '] + x, Seq::<char>::empty(), seq!['-', ' '] + y],
            0,
            false,
            0,
            false,
        ) == Some(
            (
                seq![
                    RawItem { checked: None, lines: seq![x, Seq::<char>::empty()] },
                    RawItem { checked: None, lines: seq![y] },
                ],
                3int,
            ),
        ),
{
    let l0 = seq!['-', ' '] + x;
    let l2 = seq!['-', ' '] + y;
    let empty = Seq::<char>::empty();
    let ls = seq![l0, empty, l2];
    assert(ls[0] == l0 && ls[1] == empty && ls[2] == l2);
    lemma_dash_line(x);
    lemma_dash_line(y);
    assert(trim(empty).len() == 0);
    assert(item_continuation(ls, 3, 0) == Some((Seq::<Seq<char>>::empty(), 3int)));
    assert(l2.take(0) =~= empty);
    assert(item_continuation(ls, 2, 0) == Some((Seq::<Seq<char>>::empty(), 2int)));
    assert(item_continuation(ls, 1, 0) == Some((seq![empty] + Seq::<Seq<char>>::empty(), 2int)));
    assert(list_items(ls, 3, false, 0, false) == Some((Seq::<RawItem>::empty(), 3int)));
    let r2 = RawItem { checked: None, lines: seq![y] + Seq::<Seq<char>>::empty() };
    assert(list_items(ls, 2, false, 0, false) == Some((seq![r2] + Seq::<RawItem>::empty(), 3int)));
    let r1 = RawItem { checked: None, lines: seq![x] + (seq![empty] + Seq::<Seq<char>>::empty()) };
    assert(list_items(ls, 0, false, 0, false) == Some(
        (seq![r1] + (seq![r2] + Seq::<RawItem>::empty()), 3int),
    ));
    assert(r1.lines =~= seq![x, empty]);
    assert(r2.lines =~= seq![y]);
    assert(seq![r1] + (seq![r2] + Seq::<RawItem>::empty()) =~= seq![r1, r2]);
}

/// The first item's lines, `x` and a blank line, parse as `x` does.
proof fn lemma_item_with_blank(x: Seq<char>)
    requires
        !x.contains('\n') && !x.contains('\r'),
    ensures
        blocks_from(split_lines(join_lines(seq![x, Seq::<char>::empty()])), 0, false) == blocks(
            split_lines(x),
            false,
        ),
{
    let empty = Seq::<char>::empty();
    assert(join_lines(seq![x]) == x);
    assert(seq![x, empty].drop_last() =~= seq![x]);
    assert(seq![x, empty].last() == empty);
    assert(join_lines(seq![x, empty]) == join_lines(seq![x]) + seq!['\n'] + empty);
    crate::text::lemma_split_lines_cons(x, empty);
    assert(split_lines(empty) =~= Seq::<Seq<char>>::empty());
    assert(strip_cr(x) == x) by {
        if x.len() > 0 && x.last() == '\r' {
            assert(x.contains('\r'));
        }
    }
    assert(split_lines(join_lines(seq![x, empty])) =~= seq![x]);
    if x.len() > 0 {
        crate::text::lemma_split_lines_single(x);
    } else {
        assert(split_lines(x) =~= Seq::<Seq<char>>::empty());
        assert(x =~= empty);
        assert(trim(empty).len() == 0);
        lemma_weight_skip(seq![x], 0, 1);
        assert(blocks_from(seq![x], 1, false) == Some(Seq::<BlockModel>::empty()));
        assert(blocks_from(seq![x], 0, false) == Some(Seq::<BlockModel>::empty()));
    }
}

/// The items of the lines `- x`, a blank line and `- y`.
proof fn lemma_loose_list_items(x: Seq<char>, y: Seq<char>)
    requires
        !x.contains('\n') && !x.contains('\r'),
    ensures
        items_blocks(
            seq![
                RawItem { checked: None, lines: seq![x, Seq::<char>::empty()] },
                RawItem { checked: None, lines: seq![y] },
            ],
            false,
        ) == match (blocks(split_lines(x), false), blocks(split_lines(y), false)) {
            (Some(bx), Some(by)) => Some(
                seq![
                    ItemModel { checked: None, blocks: bx },
                    ItemModel { checked: None, blocks: by },
                ],
            ),
            _ => None,
        },
{
    let r1 = RawItem { checked: None, lines: seq![x, Seq::<char>::empty()] };
    let r2 = RawItem { checked: None, lines: seq![y] };
    let raw = seq![r1, r2];
    lemma_item_with_blank(x);
    assert(join_lines(seq![y]) == y);
    let lines1 = split_lines(join_lines(r1.lines));
    let lines2 = split_lines(join_lines(r2.lines));
    assert(lines1.skip(0) =~= lines1);
    assert(lines2.skip(0) =~= lines2);
    assert(raw.drop_first() =~= seq![r2]);
    assert(seq![r2].drop_first() =~= Seq::<RawItem>::empty());
    assert(raw[0] == r1);
    assert(seq![r2][0] == r2);
    assert(items_blocks(Seq::<RawItem>::empty(), false) == Some(Seq::<ItemModel>::empty()));
    match (blocks(split_lines(x), false), blocks(split_lines(y), false)) {
        (Some(bx), Some(by)) => {
            let i1 = ItemModel { checked: None, blocks: bx };
            let i2 = ItemModel { checked: None, blocks: by };
            assert(items_blocks(seq![r2], false) == Some(seq![i2] + Seq::<ItemModel>::empty()));
            assert(seq![i2] + Seq::<ItemModel>::empty() =~= seq![i2]);
            assert(seq![i1] + seq![i2] =~= seq![i1, i2]);
        },
        _ => {},
    }
}

/// The lines `- x`, a blank line and `- y` make one list of two items,
/// parsed from `x` and from `y`.
pub proof fn lemma_loose_list(x: Seq<char>, y: Seq<char>)
    requires
        !x.contains('\n') && !x.contains('\r'),
        !y.contains('\n') && !y.contains('\r'),
        !is_rule(seq!['-', ' '] + x),
    ensures
        blocks(seq![seq!['-', ' '] + x, Seq::<char>::empty(), seq!['-', ' '] + y], false) == match (
            blocks(split_lines(x), false),
            blocks(split_lines(y), false),
        ) {
            (Some(bx), Some(by)) => Some(
                seq![
                    BlockModel::List {
                        ordered: false,
                        start: 1,
                        items: seq![
                            ItemModel { checked: None, blocks: bx },
                            ItemModel { checked: None, blocks: by },
                        ],
                    },
                ],
            ),
            _ => None,
        },
{
    let l0 = seq!['-', ' '] + x;
    let empty = Seq::<char>::empty();
    let ls = seq![l0, empty, seq!['-', ' '] + y];
    assert(ls[0] == l0 && ls[1] == empty);
    lemma_dash_line(x);
    assert(trim(empty).len() == 0);
    assert(setext_heading(ls, 0) == Some(None::<(u8, Seq<char>)>));
    lemma_loose_list_raw(x, y);
    lemma_loose_list_items(x, y);
    lemma_list_items_weight(ls, 0, false, 0, false);
    lemma_weight_skip(ls, 0, 3);
    assert(blocks_from(ls, 3, false) == Some(Seq::<BlockModel>::empty()));
    if let Some(items) = items_blocks(
        seq![
            RawItem { checked: None, lines: seq![x, empty] },
            RawItem { checked: None, lines: seq![y] },
        ],
        false,
    ) {
        let lst = BlockModel::List { ordered: false, start: 1, items };
        assert(seq![lst] + Seq::<BlockModel>::empty() =~= seq![lst]);
    }
}

/// The UTF-8 width of a line's leading whitespace.
pub open spec fn indent_of(l: Seq<char>) -> nat {
    utf8_len(l.take(run_end(l, 0, CharClass::Whitespace)))
}

/// A list item goes on over blank lines and lines indented past its marker,
/// and stops exactly at the first other line: every line it takes is blank
/// (kept as an empty line) or indented past the marker, and the line where it
/// stops, if any, is neither.
pub proof fn law_item_continuation_stops_at_outdent(ls: Seq<Seq<char>>, j: int, indent: nat)
    requires
        0 <= j <= ls.len(),
    ensures
        item_continuation(ls, j, indent) matches Some((more, e)) ==> {
            &&& j <= e <= ls.len()
            &&& more.len() == e - j
            &&& (e == ls.len() || (trim(ls[e]).len() != 0 && indent_of(ls[e]) <= indent))
            &&& forall|m: int|
                j <= m < e ==> (trim(#[trigger] ls[m]).len() == 0 && more[m - j].len() == 0) || indent_of(
                    ls[m],
                ) > indent
        },
    decreases ls.len() - j,
{
    if j < ls.len() {
        law_item_continuation_stops_at_outdent(ls, j + 1, indent);
        if let Some((more, e)) = item_continuation(ls, j, indent) {
            if e > j {
                let (more1, e1) = item_continuation(ls, j + 1, indent)->0;
                assert forall|m: int| j <= m < e implies (trim(#[trigger] ls[m]).len() == 0
                    && more[m - j].len() == 0) || indent_of(ls[m]) > indent by {
                    if m > j {
                        assert(more[m - j] == more1[m - j - 1]);
                    }
                }
            }
        }
    }
}

} // verus!
